//! Parsed object files.

use vstd::prelude::*;
use crate::macho::reader::{DysymtabCmd, LoadCommand, MachHeader64, ReadError, SymtabCmd};
use crate::section::InputSection;
use crate::string_table;
use crate::string_table::StringTable;
use crate::symbol::InputSymbol;

verus! {

/// One `data_in_code_entry`: a run of data between instructions.
#[derive(Debug, Clone, Copy, PartialEq, Eq, Structural)]
pub struct DataInCodeEntry {
    pub offset: u32,
    pub length: u16,
    pub kind: u16,
}

/// An object file with its tables taken apart.
#[derive(Debug)]
pub struct ObjectFile {
    pub path: String,
    pub header: MachHeader64,
    pub commands: Vec<LoadCommand>,
    pub sections: Vec<InputSection>,
    pub symbols: Vec<InputSymbol>,
    pub strings: StringTable,
    pub symtab: Option<SymtabCmd>,
    pub dysymtab: Option<DysymtabCmd>,
    pub loh: Vec<u8>,
    pub data_in_code: Vec<DataInCodeEntry>,
}

impl ObjectFile {
    /// The name of a symbol of this file.
    pub open spec fn name_of(self, sym: InputSymbol) -> Result<Seq<char>, ReadError> {
        string_table::name_at(self.strings@, sym.raw.strx)
    }

    pub fn symbol_name(&self, sym: &InputSymbol) -> (r: Result<&str, ReadError>)
        ensures
            match r {
                Ok(name) => self.name_of(*sym) == Ok::<_, ReadError>(name@),
                Err(e) => self.name_of(*sym) == Err::<Seq<char>, _>(e),
            },
    {
        self.strings.get(sym.strx())
    }

    /// The place of the section that a symbol lies in.
    pub open spec fn section_index(self, sym: InputSymbol) -> Option<int> {
        if 1 <= sym.raw.n_sect <= self.sections@.len() {
            Some(sym.raw.n_sect - 1)
        } else {
            None
        }
    }

    /// The section that a symbol lies in.
    pub fn section_for_symbol(&self, sym: &InputSymbol) -> (r: Option<&InputSection>)
        ensures
            match r {
                Some(section) => self.section_index(*sym) is Some && *section
                    == self.sections@[self.section_index(*sym)->0],
                None => self.section_index(*sym) is None,
            },
    {
        let n: usize = sym.sect_idx() as usize;
        if n == 0 || n > self.sections.len() {
            None
        } else {
            Some(&self.sections[n - 1])
        }
    }
}

} // verus!
