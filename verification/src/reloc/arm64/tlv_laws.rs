//! What the descriptors of thread-local variables hold in the end.

use vstd::prelude::*;
use crate::atom::Atom;
use crate::bytes;
use crate::input::ObjectFile;
use crate::layout::LayoutInput;
use crate::reloc::arm64::maps;
use crate::reloc::arm64::targets;
use crate::reloc::arm64::targets::Targets;
use crate::reloc::arm64::tlv;
use crate::reloc::arm64::tlv::TlvEnv;
use crate::reloc::arm64::RelocFault;
use crate::reloc::{Reloc, RelocKind};
use crate::resolve::AtomId;
use crate::section::OutputAtom;
use crate::symbol::{InputSymbol, SymKind};

verus! {

proof fn lemma_word_kept(a: Seq<u8>, b: Seq<u8>, at: int)
    requires
        0 <= at,
        at + 8 <= a.len(),
        at + 8 <= b.len(),
        forall|j: int| at <= j < at + 8 ==> #[trigger] a[j] == b[j],
    ensures
        bytes::le64(a, at) == bytes::le64(b, at),
{
    assert(a[at] == b[at] && a[at + 1] == b[at + 1] && a[at + 2] == b[at + 2] && a[at + 3] == b[at
        + 3] && a[at + 4] == b[at + 4] && a[at + 5] == b[at + 5] && a[at + 6] == b[at + 6] && a[at
        + 7] == b[at + 7]);
}

/// The descriptor at `24 * k` is finished: its first word is left for dyld, its second is
/// what it was, and its third says how far into the template its variable starts.
pub open spec fn finished(
    env: TlvEnv,
    atom: Atom,
    obj: ObjectFile,
    relocs: Seq<Reloc>,
    before: Seq<u8>,
    after: Seq<u8>,
    k: int,
) -> bool {
    let init = tlv::init_address(
        env.targets,
        env.inputs,
        atom,
        obj,
        relocs,
        (24 * k) as u32,
        bytes::le64(before, 24 * k + 16),
    );
    &&& bytes::le64(after, 24 * k) == 0
    &&& bytes::le64(after, 24 * k + 8) == bytes::le64(before, 24 * k + 8)
    &&& init is Ok
    &&& bytes::le64(after, 24 * k + 16) + env.template == init->Ok_0
}

proof fn lemma_done(
    env: TlvEnv,
    id: AtomId,
    atom: Atom,
    obj: ObjectFile,
    relocs: Seq<Reloc>,
    k: int,
    s: Seq<u8>,
)
    requires
        0 <= k,
        tlv::descriptor_done(env, id, atom, obj, relocs, k, s) is Ok,
    ensures
        ({
            let out = tlv::descriptor_done(env, id, atom, obj, relocs, k, s)->Ok_0;
            &&& out.len() == s.len()
            &&& 24 * k + 24 <= s.len()
            &&& finished(env, atom, obj, relocs, s, out, k)
            &&& forall|j: int|
                0 <= j < s.len() && !(24 * k <= j < 24 * k + 24) ==> #[trigger] out[j] == s[j]
        }),
{
    let start = 24 * k;
    let zero = bytes::le64_bytes(0);
    assert(zero.len() == 8);
    let cleared = bytes::replaced(s, start, zero);
    bytes::lemma_replaced(s, start, zero);
    bytes::lemma_le64_of_bytes(cleared, start, 0);
    lemma_word_kept(cleared, s, start + 16);
    lemma_word_kept(cleared, s, start + 8);
    let init = tlv::init_address(
        env.targets,
        env.inputs,
        atom,
        obj,
        relocs,
        start as u32,
        bytes::le64(cleared, start + 16),
    )->Ok_0;
    let v = (init - env.template) as u64;
    let word = bytes::le64_bytes(v);
    assert(word.len() == 8);
    let out = bytes::replaced(cleared, start + 16, word);
    bytes::lemma_replaced(cleared, start + 16, word);
    bytes::lemma_le64_of_bytes(out, start + 16, v);
    lemma_word_kept(out, cleared, start);
    lemma_word_kept(out, cleared, start + 8);
}

proof fn lemma_all_done(
    env: TlvEnv,
    id: AtomId,
    atom: Atom,
    obj: ObjectFile,
    relocs: Seq<Reloc>,
    n: nat,
    s: Seq<u8>,
)
    requires
        tlv::descriptors_done(env, id, atom, obj, relocs, n, s) is Ok,
    ensures
        ({
            let out = tlv::descriptors_done(env, id, atom, obj, relocs, n, s)->Ok_0;
            &&& out.len() == s.len()
            &&& 24 * n <= s.len()
            &&& forall|k: int|
                0 <= k < n ==> #[trigger] finished(env, atom, obj, relocs, s, out, k)
            &&& forall|j: int| 24 * n <= j < s.len() ==> #[trigger] out[j] == s[j]
        }),
    decreases n,
{
    if n > 0 {
        let m = (n - 1) as nat;
        lemma_all_done(env, id, atom, obj, relocs, m, s);
        let b = tlv::descriptors_done(env, id, atom, obj, relocs, m, s)->Ok_0;
        let out = tlv::descriptors_done(env, id, atom, obj, relocs, n, s)->Ok_0;
        lemma_done(env, id, atom, obj, relocs, n - 1, b);
        assert forall|k: int| 0 <= k < n implies #[trigger] finished(
            env,
            atom,
            obj,
            relocs,
            s,
            out,
            k,
        ) by {
            if k < m {
                assert(finished(env, atom, obj, relocs, s, b, k));
                lemma_word_kept(out, b, 24 * k);
                lemma_word_kept(out, b, 24 * k + 8);
                lemma_word_kept(out, b, 24 * k + 16);
            } else {
                lemma_word_kept(b, s, 24 * k + 8);
                lemma_word_kept(b, s, 24 * k + 16);
            }
        }
    }
}

/// Every descriptor of an atom is finished, and no byte behind them changes. The third word
/// of each plus the start of the template is where the first value of its variable lies.
pub proof fn law_descriptors_are_finished(
    env: TlvEnv,
    placed: OutputAtom,
    obj: ObjectFile,
    s: Seq<u8>,
    k: int,
)
    requires
        tlv::tlv_atom(env, placed, s) is Ok,
        maps::object_for(env.inputs, env.targets.atoms[placed.atom.0 - 1].origin) == Some(obj),
        0 <= k,
        24 * k < placed.size,
    ensures
        ({
            let a = env.targets.atoms[placed.atom.0 - 1];
            let out = tlv::tlv_atom(env, placed, s)->Ok_0;
            &&& out.len() == s.len()
            &&& placed.size % 24 == 0
            &&& finished(env, a, obj, maps::relocs_of(env.relocs, a), s, out, k)
            &&& forall|j: int| placed.size <= j < s.len() ==> #[trigger] out[j] == s[j]
        }),
{
    let a = env.targets.atoms[placed.atom.0 - 1];
    lemma_all_done(
        env,
        placed.atom,
        a,
        obj,
        maps::relocs_of(env.relocs, a),
        (placed.size / 24) as nat,
        s,
    );
}

/// The input has the only symbol of that name.
pub open spec fn only_named(obj: ObjectFile, y: int, name: Seq<char>) -> bool {
    &&& 0 <= y < obj.symbols@.len()
    &&& obj.name_of(obj.symbols@[y]) is Ok
    &&& obj.name_of(obj.symbols@[y])->Ok_0 == name
    &&& forall|z: int|
        0 <= z < obj.symbols@.len() && z != y ==> !(obj.name_of(#[trigger] obj.symbols@[z]) matches Ok(
            n,
        ) && n == name)
}

proof fn lemma_named(obj: ObjectFile, symbols: Seq<InputSymbol>, name: Seq<char>, y: int)
    requires
        0 <= y < symbols.len(),
        obj.name_of(symbols[y]) is Ok,
        obj.name_of(symbols[y])->Ok_0 == name,
        forall|z: int|
            0 <= z < symbols.len() && z != y ==> !(obj.name_of(#[trigger] symbols[z]) matches Ok(n)
                && n == name),
    ensures
        tlv::named(obj, symbols, name) == Some(symbols[y]),
    decreases symbols.len(),
{
    assert(symbols.first() == symbols[0]);
    if y > 0 {
        let rest = symbols.drop_first();
        assert(rest[y - 1] == symbols[y]);
        assert forall|z: int| 0 <= z < rest.len() && z != y - 1 implies !(obj.name_of(
            #[trigger] rest[z],
        ) matches Ok(n) && n == name) by {
            assert(rest[z] == symbols[z + 1]);
        }
        lemma_named(obj, rest, name, y - 1);
    }
}

proof fn lemma_owners(
    obj: ObjectFile,
    atom: Atom,
    offset: u32,
    symbols: Seq<InputSymbol>,
    x: int,
)
    requires
        0 <= x < symbols.len(),
        tlv::owns_descriptor(obj, atom, offset, symbols[x]),
        forall|z: int|
            0 <= z < symbols.len() && z != x ==> !tlv::owns_descriptor(
                obj,
                atom,
                offset,
                #[trigger] symbols[z],
            ),
    ensures
        tlv::owners(obj, atom, offset, symbols) == seq![symbols[x]],
    decreases symbols.len(),
{
    let front = symbols.drop_last();
    if x < front.len() {
        assert(front[x] == symbols[x]);
        assert(!tlv::owns_descriptor(obj, atom, offset, symbols[symbols.len() - 1]));
        assert forall|z: int| 0 <= z < front.len() && z != x implies !tlv::owns_descriptor(
            obj,
            atom,
            offset,
            #[trigger] front[z],
        ) by {
            assert(front[z] == symbols[z]);
        }
        lemma_owners(obj, atom, offset, front, x);
    } else {
        assert forall|z: int| 0 <= z < front.len() implies !tlv::owns_descriptor(
            obj,
            atom,
            offset,
            #[trigger] front[z],
        ) by {
            assert(front[z] == symbols[z]);
        }
        lemma_no_owners(obj, atom, offset, front);
        assert(seq![] + seq![symbols[x]] =~= seq![symbols[x]]);
    }
}

proof fn lemma_no_owners(obj: ObjectFile, atom: Atom, offset: u32, symbols: Seq<InputSymbol>)
    requires
        forall|z: int|
            0 <= z < symbols.len() ==> !tlv::owns_descriptor(
                obj,
                atom,
                offset,
                #[trigger] symbols[z],
            ),
    ensures
        tlv::owners(obj, atom, offset, symbols) == Seq::<InputSymbol>::empty(),
    decreases symbols.len(),
{
    if symbols.len() > 0 {
        let front = symbols.drop_last();
        assert(!tlv::owns_descriptor(obj, atom, offset, symbols[symbols.len() - 1]));
        assert forall|z: int| 0 <= z < front.len() implies !tlv::owns_descriptor(
            obj,
            atom,
            offset,
            #[trigger] front[z],
        ) by {
            assert(front[z] == symbols[z]);
        }
        lemma_no_owners(obj, atom, offset, front);
    }
}

/// The variable that a symbol describes has its first value at the symbol of that name with
/// `$tlv$init` behind it: in a link of one input, the address of a descriptor's variable
/// is that symbol's, whatever the descriptor's last word says.
pub proof fn law_first_value_is_found_by_name(
    t: Targets,
    input: LayoutInput,
    atom: Atom,
    relocs: Seq<Reloc>,
    offset: u32,
    last_word: u64,
    x: int,
    y: int,
)
    requires
        ({
            let obj = *input.object;
            let owner = obj.symbols@[x];
            &&& 0 <= x < obj.symbols@.len()
            &&& tlv::owns_descriptor(obj, atom, offset, owner)
            &&& forall|z: int|
                0 <= z < obj.symbols@.len() && z != x ==> !tlv::owns_descriptor(
                    obj,
                    atom,
                    offset,
                    #[trigger] obj.symbols@[z],
                )
            &&& obj.name_of(owner) is Ok
            &&& only_named(obj, y, obj.name_of(owner)->Ok_0 + "$tlv$init"@)
        }),
    ensures
        tlv::init_address(t, seq![input], atom, *input.object, relocs, offset, last_word)
            == targets::input_symbol_target(
            t,
            input.id,
            *input.object,
            atom,
            RelocKind::Unsigned,
            input.object.symbols@[y],
        ),
{
    let obj = *input.object;
    let inputs = seq![input];
    let owner = obj.symbols@[x];
    lemma_owners(obj, atom, offset, obj.symbols@, x);
    lemma_named(obj, obj.symbols@, obj.name_of(owner)->Ok_0 + "$tlv$init"@, y);
    assert(maps::input_at(inputs, input.id) == Some(0int));
    assert(tlv::named_init(t, inputs, atom, owner, 0) == match targets::input_symbol_target(
        t,
        input.id,
        obj,
        atom,
        RelocKind::Unsigned,
        obj.symbols@[y],
    ) {
        Ok(addr) => Ok::<Option<u64>, RelocFault>(Some(addr)),
        Err(e) => Err(e),
    });
    let owners = tlv::owners(obj, atom, offset, obj.symbols@);
    assert(owners.first() == owner);
}

} // verus!
