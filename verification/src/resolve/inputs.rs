//! The registry of input files.

use vstd::prelude::*;
use crate::input::ObjectFile;
use crate::macho::dylib::DylibFile;
use crate::macho::reader::ReadError;
use crate::path;
use crate::path::same_path;
use crate::resolve::names::{ArchiveId, DylibId, InputId};

verus! {

/// An object file, given by itself or fetched from an archive.
#[derive(Debug)]
pub struct ObjectInput {
    pub path: String,
    pub load_order: usize,
    /// Where its member starts in the archive that it comes from.
    pub archive_member_offset: Option<u32>,
    pub bytes: Vec<u8>,
    pub parsed: ObjectFile,
}

/// An `ObjectInput` with its texts and bytes as sequences.
#[verifier::ext_equal]
pub struct ObjectModel {
    pub path: Seq<char>,
    pub load_order: usize,
    pub archive_member_offset: Option<u32>,
    pub bytes: Seq<u8>,
    pub parsed: ObjectFile,
}

impl View for ObjectInput {
    type V = ObjectModel;

    open spec fn view(&self) -> ObjectModel {
        ObjectModel {
            path: self.path@,
            load_order: self.load_order,
            archive_member_offset: self.archive_member_offset,
            bytes: self.bytes@,
            parsed: self.parsed,
        }
    }
}

/// One entry of an archive's symbol index.
#[derive(Debug)]
pub struct IndexEntry {
    pub name: String,
    pub member_header_offset: u32,
}

/// An `IndexEntry` with its name as a character sequence.
#[verifier::ext_equal]
pub struct IndexModel {
    pub name: Seq<char>,
    pub member_header_offset: u32,
}

impl View for IndexEntry {
    type V = IndexModel;

    open spec fn view(&self) -> IndexModel {
        IndexModel { name: self.name@, member_header_offset: self.member_header_offset }
    }
}

pub open spec fn index_view(entries: Seq<IndexEntry>) -> Seq<IndexModel> {
    entries.map_values(|e: IndexEntry| e@)
}

/// What reading a member as an object gives.
#[derive(Debug)]
pub enum MemberContent {
    Ready(ObjectFile),
    Unreadable(ReadError),
    /// The object is among the inputs already.
    Fetched,
}

/// A member of an archive.
#[derive(Debug)]
pub struct ArchiveMember {
    pub header_offset: u32,
    pub name: String,
    /// It is meant to be an object, and no table of the archive itself.
    pub is_object: bool,
    pub bytes: Vec<u8>,
    pub content: MemberContent,
}

/// An `ArchiveMember` with its name and bytes as sequences.
#[verifier::ext_equal]
pub struct MemberModel {
    pub header_offset: u32,
    pub name: Seq<char>,
    pub is_object: bool,
    pub bytes: Seq<u8>,
    pub content: MemberContent,
}

impl View for ArchiveMember {
    type V = MemberModel;

    open spec fn view(&self) -> MemberModel {
        MemberModel {
            header_offset: self.header_offset,
            name: self.name@,
            is_object: self.is_object,
            bytes: self.bytes@,
            content: self.content,
        }
    }
}

pub open spec fn members_view(members: Seq<ArchiveMember>) -> Seq<MemberModel> {
    members.map_values(|m: ArchiveMember| m@)
}

/// An archive: its symbol index, where it has one, and its members.
#[derive(Debug)]
pub struct ArchiveInput {
    pub path: String,
    pub load_order: usize,
    pub index: Option<Vec<IndexEntry>>,
    pub members: Vec<ArchiveMember>,
}

/// An `ArchiveInput` with its parts as sequences.
#[verifier::ext_equal]
pub struct ArchiveModel {
    pub path: Seq<char>,
    pub load_order: usize,
    pub index: Option<Seq<IndexModel>>,
    pub members: Seq<MemberModel>,
}

impl View for ArchiveInput {
    type V = ArchiveModel;

    open spec fn view(&self) -> ArchiveModel {
        ArchiveModel {
            path: self.path@,
            load_order: self.load_order,
            index: match self.index {
                Some(v) => Some(index_view(v@)),
                None => None,
            },
            members: members_view(self.members@),
        }
    }
}

/// A dylib, as it is to be loaded.
#[derive(Debug)]
pub struct DylibInput {
    pub path: String,
    pub file: DylibFile,
    /// What the load command names: several documents of one stub share it.
    pub load_install_name: String,
    pub load_current_version: u32,
    pub load_compatibility_version: u32,
    /// The number of its load command, from 1.
    pub ordinal: u16,
}

/// A `DylibInput` with its texts as sequences.
#[verifier::ext_equal]
pub struct DylibModel {
    pub path: Seq<char>,
    pub file: DylibFile,
    pub load_install_name: Seq<char>,
    pub load_current_version: u32,
    pub load_compatibility_version: u32,
    pub ordinal: u16,
}

impl View for DylibInput {
    type V = DylibModel;

    open spec fn view(&self) -> DylibModel {
        DylibModel {
            path: self.path@,
            file: self.file,
            load_install_name: self.load_install_name@,
            load_current_version: self.load_current_version,
            load_compatibility_version: self.load_compatibility_version,
            ordinal: self.ordinal,
        }
    }
}

/// What the load command of a dylib says.
#[derive(Debug, Clone)]
pub struct DylibLoadMeta {
    pub install_name: String,
    pub current_version: u32,
    pub compatibility_version: u32,
    pub ordinal: u16,
}

/// All inputs of a link, each kind in the order in which its handles count.
#[derive(Debug)]
pub struct Inputs {
    pub objects: Vec<ObjectInput>,
    pub archives: Vec<ArchiveInput>,
    pub dylibs: Vec<DylibInput>,
}

/// `Inputs` by their contents.
#[verifier::ext_equal]
pub struct InputsModel {
    pub objects: Seq<ObjectModel>,
    pub archives: Seq<ArchiveModel>,
    pub dylibs: Seq<DylibModel>,
}

pub open spec fn objects_view(objects: Seq<ObjectInput>) -> Seq<ObjectModel> {
    objects.map_values(|o: ObjectInput| o@)
}

pub open spec fn archives_view(archives: Seq<ArchiveInput>) -> Seq<ArchiveModel> {
    archives.map_values(|a: ArchiveInput| a@)
}

pub open spec fn dylibs_view(dylibs: Seq<DylibInput>) -> Seq<DylibModel> {
    dylibs.map_values(|d: DylibInput| d@)
}

impl View for Inputs {
    type V = InputsModel;

    open spec fn view(&self) -> InputsModel {
        InputsModel {
            objects: objects_view(self.objects@),
            archives: archives_view(self.archives@),
            dylibs: dylibs_view(self.dylibs@),
        }
    }
}

impl InputsModel {
    pub open spec fn empty() -> InputsModel {
        InputsModel { objects: seq![], archives: seq![], dylibs: seq![] }
    }

    /// The inputs with one more object.
    pub open spec fn with_object(self, object: ObjectModel) -> InputsModel {
        InputsModel { objects: self.objects.push(object), ..self }
    }

    /// The inputs with one more dylib.
    pub open spec fn with_dylib(self, dylib: DylibModel) -> InputsModel {
        InputsModel { dylibs: self.dylibs.push(dylib), ..self }
    }
}

/// The largest number of a load command, or 0.
pub open spec fn last_ordinal(dylibs: Seq<DylibModel>) -> u16
    decreases dylibs.len(),
{
    if dylibs.len() == 0 {
        0
    } else {
        let rest = last_ordinal(dylibs.drop_last());
        if rest < dylibs.last().ordinal {
            dylibs.last().ordinal
        } else {
            rest
        }
    }
}

/// The dylib as it is loaded under its own name.
pub open spec fn loaded_as_itself(path: Seq<char>, file: DylibFile, ordinal: u16) -> DylibModel {
    DylibModel {
        path,
        file,
        load_install_name: file.install_name@,
        load_current_version: file.current_version,
        load_compatibility_version: file.compatibility_version,
        ordinal,
    }
}

/// The place of the first archive with a path.
pub open spec fn archive_place(archives: Seq<ArchiveModel>, wanted: Seq<char>) -> Option<int> {
    if exists|i: int| is_archive(archives, wanted, i) {
        Some(choose|i: int| is_archive(archives, wanted, i))
    } else {
        None
    }
}

/// The archive at `i` is the first with the path.
pub open spec fn is_archive(archives: Seq<ArchiveModel>, wanted: Seq<char>, i: int) -> bool {
    &&& 0 <= i < archives.len()
    &&& path::parts_of(archives[i].path) == path::parts_of(wanted)
    &&& forall|k: int|
        0 <= k < i ==> path::parts_of((#[trigger] archives[k]).path) != path::parts_of(wanted)
}

/// Why an input was not taken.
#[derive(Debug)]
pub enum InputAddError {
    Read(ReadError),
}

impl InputAddError {
    pub open spec fn message(self) -> Seq<char> {
        match self {
            InputAddError::Read(e) => e.message(),
        }
    }

    pub fn to_string(&self) -> (r: String)
        ensures
            r@ == self.message(),
    {
        match self {
            InputAddError::Read(e) => e.to_string(),
        }
    }
}

impl Default for Inputs {
    fn default() -> (r: Inputs)
        ensures
            r@ == InputsModel::empty(),
    {
        let r = Inputs { objects: Vec::new(), archives: Vec::new(), dylibs: Vec::new() };
        assert(r@ =~= InputsModel::empty());
        r
    }
}

impl Inputs {
    pub fn new() -> (r: Inputs)
        ensures
            r@ == InputsModel::empty(),
    {
        Inputs::default()
    }

    /// Registers an object.
    pub fn add_parsed_object(
        &mut self,
        path: String,
        bytes: Vec<u8>,
        parsed: ObjectFile,
        load_order: usize,
    ) -> (r: InputId)
        ensures
            r == InputId(old(self)@.objects.len() as u32),
            final(self)@ == old(self)@.with_object(
                (ObjectModel {
                    path: path@,
                    load_order,
                    archive_member_offset: None,
                    bytes: bytes@,
                    parsed,
                }),
            ),
    {
        let id = InputId(self.objects.len() as u32);
        let object = ObjectInput { path, load_order, archive_member_offset: None, bytes, parsed };
        self.objects.push(object);
        assert(self@.objects =~= old(self)@.objects.push(object@));
        id
    }

    /// Registers an object with what came of reading it; one that cannot be read is
    /// refused.
    pub fn add_object(
        &mut self,
        path: String,
        bytes: Vec<u8>,
        read: Result<ObjectFile, ReadError>,
        load_order: usize,
    ) -> (r: Result<InputId, InputAddError>)
        ensures
            match read {
                Ok(parsed) => {
                    &&& r == Ok::<InputId, InputAddError>(
                        InputId(old(self)@.objects.len() as u32),
                    )
                    &&& final(self)@ == old(self)@.with_object(
                        (ObjectModel {
                            path: path@,
                            load_order,
                            archive_member_offset: None,
                            bytes: bytes@,
                            parsed,
                        }),
                    )
                },
                Err(e) => {
                    &&& r == Err::<InputId, InputAddError>(InputAddError::Read(e))
                    &&& final(self)@ == old(self)@
                },
            },
    {
        match read {
            Ok(parsed) => Ok(self.add_parsed_object(path, bytes, parsed, load_order)),
            Err(e) => Err(InputAddError::Read(e)),
        }
    }

    /// Registers an archive of which nothing was fetched so far.
    pub fn add_validated_archive(
        &mut self,
        path: String,
        load_order: usize,
        index: Option<Vec<IndexEntry>>,
        members: Vec<ArchiveMember>,
    ) -> (r: ArchiveId)
        ensures
            r == ArchiveId(old(self)@.archives.len() as u32),
            final(self)@ == (InputsModel {
                archives: old(self)@.archives.push(
                    ArchiveModel {
                        path: path@,
                        load_order,
                        index: match index {
                            Some(v) => Some(index_view(v@)),
                            None => None,
                        },
                        members: members_view(members@),
                    },
                ),
                ..old(self)@
            }),
    {
        let id = ArchiveId(self.archives.len() as u32);
        let archive = ArchiveInput { path, load_order, index, members };
        self.archives.push(archive);
        assert(self@.archives =~= old(self)@.archives.push(archive@));
        id
    }

    /// Registers a dylib.
    pub fn add_dylib(&mut self, path: String, bytes: &[u8]) -> (r: Result<DylibId, InputAddError>)
        requires
            last_ordinal(old(self)@.dylibs) < u16::MAX,
        ensures
            match r {
                Ok(id) => {
                    &&& id == DylibId(old(self)@.dylibs.len() as u32)
                    &&& final(self)@.dylibs.len() > 0
                    &&& final(self)@.dylibs.last().file.parsed_from(path@, bytes@)
                    &&& final(self)@ == old(self)@.with_dylib(
                        loaded_as_itself(
                            path@,
                            final(self)@.dylibs.last().file,
                            (last_ordinal(old(self)@.dylibs) + 1) as u16,
                        ),
                    )
                },
                Err(InputAddError::Read(e)) => {
                    &&& DylibFile::refused(bytes@, e)
                    &&& final(self)@ == old(self)@
                },
            },
    {
        match DylibFile::parse(path.clone(), bytes) {
            Ok(file) => {
                let id = self.add_dylib_from_file(path, file);
                assert(self@.dylibs.last() == loaded_as_itself(
                    path@,
                    file,
                    (last_ordinal(old(self)@.dylibs) + 1) as u16,
                ));
                Ok(id)
            },
            Err(e) => Err(InputAddError::Read(e)),
        }
    }

    /// Registers a dylib under its own name.
    pub fn add_dylib_from_file(&mut self, path: String, file: DylibFile) -> (r: DylibId)
        requires
            last_ordinal(old(self)@.dylibs) < u16::MAX,
        ensures
            r == DylibId(old(self)@.dylibs.len() as u32),
            final(self)@ == old(self)@.with_dylib(
                loaded_as_itself(path@, file, (last_ordinal(old(self)@.dylibs) + 1) as u16),
            ),
    {
        let ordinal: u16 = self.next_dylib_ordinal();
        let load = DylibLoadMeta {
            install_name: file.install_name.clone(),
            current_version: file.current_version,
            compatibility_version: file.compatibility_version,
            ordinal,
        };
        self.add_dylib_from_file_with_meta(path, file, load)
    }

    /// Registers a dylib under the name of `load`.
    pub fn add_dylib_from_file_with_meta(
        &mut self,
        path: String,
        file: DylibFile,
        load: DylibLoadMeta,
    ) -> (r: DylibId)
        ensures
            r == DylibId(old(self)@.dylibs.len() as u32),
            final(self)@ == old(self)@.with_dylib(
                (DylibModel {
                    path: path@,
                    file,
                    load_install_name: load.install_name@,
                    load_current_version: load.current_version,
                    load_compatibility_version: load.compatibility_version,
                    ordinal: load.ordinal,
                }),
            ),
    {
        let id = DylibId(self.dylibs.len() as u32);
        let dylib = DylibInput {
            path,
            file,
            load_install_name: load.install_name,
            load_current_version: load.current_version,
            load_compatibility_version: load.compatibility_version,
            ordinal: load.ordinal,
        };
        self.dylibs.push(dylib);
        assert(self@.dylibs =~= old(self)@.dylibs.push(dylib@));
        id
    }

    /// The number for the next load command.
    pub fn next_dylib_ordinal(&self) -> (r: u16)
        requires
            last_ordinal(self@.dylibs) < u16::MAX,
        ensures
            r == last_ordinal(self@.dylibs) + 1,
    {
        let ghost all = self@.dylibs;
        let mut last: u16 = 0;
        let mut i: usize = 0;
        while i < self.dylibs.len()
            invariant
                i <= self.dylibs@.len(),
                all == dylibs_view(self.dylibs@),
                last == last_ordinal(all.take(i as int)),
            decreases self.dylibs@.len() - i,
        {
            assert(all.take(i + 1).drop_last() =~= all.take(i as int));
            assert(all[i as int] == self.dylibs@[i as int]@);
            if last < self.dylibs[i].ordinal {
                last = self.dylibs[i].ordinal;
            }
            i += 1;
        }
        assert(all.take(i as int) =~= all);
        last + 1
    }

    pub fn object(&self, id: InputId) -> (r: &ObjectInput)
        requires
            id.0 < self.objects@.len(),
        ensures
            *r == self.objects@[id.0 as int],
    {
        &self.objects[id.0 as usize]
    }

    pub fn archive(&self, id: ArchiveId) -> (r: &ArchiveInput)
        requires
            id.0 < self.archives@.len(),
        ensures
            *r == self.archives@[id.0 as int],
    {
        &self.archives[id.0 as usize]
    }

    /// The archive, to be changed in place.
    pub fn archive_mut(&mut self, id: ArchiveId) -> (r: &mut ArchiveInput)
        requires
            id.0 < old(self).archives@.len(),
        ensures
            *r == old(self).archives@[id.0 as int],
            final(self).archives@ == old(self).archives@.update(id.0 as int, *final(r)),
            final(self).objects == old(self).objects,
            final(self).dylibs == old(self).dylibs,
    {
        &mut self.archives[id.0 as usize]
    }

    pub fn dylib(&self, id: DylibId) -> (r: &DylibInput)
        requires
            id.0 < self.dylibs@.len(),
        ensures
            *r == self.dylibs@[id.0 as int],
    {
        &self.dylibs[id.0 as usize]
    }

    /// The tables of an object.
    pub fn object_file(&self, id: InputId) -> (r: &ObjectFile)
        requires
            id.0 < self.objects@.len(),
        ensures
            *r == self.objects@[id.0 as int].parsed,
    {
        &self.objects[id.0 as usize].parsed
    }
}

/// The archive that was given under a path.
pub fn find_archive_by_path(inputs: &Inputs, path: &str) -> (r: Option<ArchiveId>)
    ensures
        r == match archive_place(inputs@.archives, path@) {
            Some(i) => Some(ArchiveId(i as u32)),
            None => None,
        },
{
    let ghost all = inputs@.archives;
    let mut i: usize = 0;
    while i < inputs.archives.len()
        invariant
            i <= inputs.archives@.len(),
            all == archives_view(inputs.archives@),
            forall|k: int|
                0 <= k < i ==> path::parts_of((#[trigger] all[k]).path) != path::parts_of(path@),
        decreases inputs.archives@.len() - i,
    {
        assert(all[i as int] == inputs.archives@[i as int]@);
        if same_path(inputs.archives[i].path.as_str(), path) {
            proof {
                assert(is_archive(all, path@, i as int));
                let j = choose|j: int| is_archive(all, path@, j);
                assert(is_archive(all, path@, j));
                assert(j == i) by {
                    if j < i {
                        assert(path::parts_of(all[j].path) != path::parts_of(path@));
                    } else if i < j {
                        assert(path::parts_of(all[i as int].path) != path::parts_of(path@));
                    }
                }
            }
            return Some(ArchiveId(i as u32));
        }
        i += 1;
    }
    None
}

} // verus!
