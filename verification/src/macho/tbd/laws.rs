//! What a stub's targets and versions stand for.

use vstd::prelude::*;
use crate::macho::tbd;
use crate::macho::tbd::{
    Arch, ArchModel, Platform, ScopedModel, TargetModel, TbdFault, TbdModel,
};
use crate::text;

verus! {

/// Something for these targets can be used for the wanted one: one of them is for the same
/// system and the same processor, or for arm64e where arm64 is wanted.
pub open spec fn usable(targets: Seq<TargetModel>, wanted: TargetModel) -> bool {
    exists|i: int|
        0 <= i < targets.len() && (#[trigger] targets[i]).platform == wanted.platform && (
        targets[i].arch == wanted.arch || targets[i].arch == ArchModel::Arm64e && wanted.arch
            == ArchModel::Arm64)
}

proof fn lemma_usable(targets: Seq<TargetModel>, wanted: TargetModel)
    ensures
        tbd::any_serves(targets, wanted) == usable(targets, wanted),
{
    if usable(targets, wanted) {
        let i = choose|i: int|
            0 <= i < targets.len() && (#[trigger] targets[i]).platform == wanted.platform && (
            targets[i].arch == wanted.arch || targets[i].arch == ArchModel::Arm64e && wanted.arch
                == ArchModel::Arm64);
        assert(targets[i].serves(wanted));
    }
    if tbd::any_serves(targets, wanted) {
        let i = choose|i: int| 0 <= i < targets.len() && (#[trigger] targets[i]).serves(wanted);
        assert(targets[i].platform == wanted.platform);
    }
}

proof fn lemma_kept<M>(s: Seq<ScopedModel<M>>, wanted: TargetModel, x: ScopedModel<M>)
    ensures
        tbd::kept(s, wanted).contains(x) <==> s.contains(x) && usable(x.targets, wanted),
    decreases s.len(),
{
    if s.len() > 0 {
        let front = s.drop_last();
        let rest = tbd::kept(front, wanted);
        let all = tbd::kept(s, wanted);
        lemma_kept(front, wanted, x);
        lemma_usable(s.last().targets, wanted);
        if s.contains(x) && usable(x.targets, wanted) {
            let i = choose|i: int| 0 <= i < s.len() && s[i] == x;
            if i < front.len() {
                assert(front[i] == x);
                let k = choose|k: int| 0 <= k < rest.len() && rest[k] == x;
                assert(all[k] == x);
            } else {
                assert(all[all.len() - 1] == x);
            }
        }
        if all.contains(x) {
            let k = choose|k: int| 0 <= k < all.len() && all[k] == x;
            if k < rest.len() {
                assert(rest[k] == x);
                assert(rest.contains(x));
                let i = choose|i: int| 0 <= i < front.len() && front[i] == x;
                assert(s[i] == x);
            } else {
                assert(s[s.len() - 1] == x);
            }
        }
    }
}

/// Of what a stub exports, re-exports and allows, a target is given what can be used for
/// it, all of that and nothing else. The stub's own name and versions stay.
pub proof fn law_target_is_given_its_own(t: TbdModel, wanted: TargetModel)
    ensures
        ({
            let r = tbd::narrowed(t, wanted);
            &&& r.install_name == t.install_name
            &&& r.current_version == t.current_version
            &&& r.compatibility_version == t.compatibility_version
            &&& r.targets == t.targets
            &&& forall|x| #[trigger]
                r.exports.contains(x) <==> t.exports.contains(x) && usable(x.targets, wanted)
            &&& forall|x| #[trigger]
                r.reexports.contains(x) <==> t.reexports.contains(x) && usable(x.targets, wanted)
            &&& forall|x| #[trigger]
                r.reexported_libraries.contains(x) <==> t.reexported_libraries.contains(x)
                    && usable(x.targets, wanted)
            &&& forall|x| #[trigger]
                r.allowable_clients.contains(x) <==> t.allowable_clients.contains(x) && usable(
                    x.targets,
                    wanted,
                )
            &&& forall|x| #[trigger]
                r.parent_umbrella.contains(x) <==> t.parent_umbrella.contains(x) && usable(
                    x.targets,
                    wanted,
                )
        }),
{
    let r = tbd::narrowed(t, wanted);
    assert forall|x| #[trigger]
        r.exports.contains(x) <==> t.exports.contains(x) && usable(x.targets, wanted) by {
        lemma_kept(t.exports, wanted, x);
    }
    assert forall|x| #[trigger]
        r.reexports.contains(x) <==> t.reexports.contains(x) && usable(x.targets, wanted) by {
        lemma_kept(t.reexports, wanted, x);
    }
    assert forall|x| #[trigger]
        r.reexported_libraries.contains(x) <==> t.reexported_libraries.contains(x) && usable(
            x.targets,
            wanted,
        ) by {
        lemma_kept(t.reexported_libraries, wanted, x);
    }
    assert forall|x| #[trigger]
        r.allowable_clients.contains(x) <==> t.allowable_clients.contains(x) && usable(
            x.targets,
            wanted,
        ) by {
        lemma_kept(t.allowable_clients, wanted, x);
    }
    assert forall|x| #[trigger]
        r.parent_umbrella.contains(x) <==> t.parent_umbrella.contains(x) && usable(
            x.targets,
            wanted,
        ) by {
        lemma_kept(t.parent_umbrella, wanted, x);
    }
}

/// A stub that is itself for a target is seen by it, narrowed to it.
pub proof fn law_usable_stub_is_seen(docs: Seq<TbdModel>, wanted: TargetModel, i: int)
    requires
        0 <= i < docs.len(),
        usable(docs[i].targets, wanted),
    ensures
        tbd::narrowed_docs(docs, wanted).contains(tbd::narrowed(docs[i], wanted)),
    decreases docs.len(),
{
    let front = docs.drop_last();
    let rest = tbd::narrowed_docs(front, wanted);
    let all = tbd::narrowed_docs(docs, wanted);
    let x = tbd::narrowed(docs[i], wanted);
    lemma_usable(docs.last().targets, wanted);
    if i == docs.len() - 1 {
        assert(all[all.len() - 1] == x);
    } else {
        assert(front[i] == docs[i]);
        law_usable_stub_is_seen(front, wanted, i);
        let k = choose|k: int| 0 <= k < rest.len() && rest[k] == x;
        assert(all[k] == x);
    }
}

/// The names of the built-in processors and systems are read as what they name.
pub proof fn law_built_in_names(a: Arch, p: Platform)
    ensures
        !(a is Other) ==> tbd::arch_of(tbd::arch_name(a)) == a@,
        !(p is Other) ==> tbd::platform_of(tbd::platform_name(p)) == p@,
{
    reveal_strlit("arm64");
    reveal_strlit("arm64e");
    reveal_strlit("x86_64");
    reveal_strlit("macos");
    reveal_strlit("ios");
    reveal_strlit("watchos");
    reveal_strlit("tvos");
    reveal_strlit("driverkit");
    reveal_strlit("maccatalyst");
    let s = tbd::arch_name(a);
    let q = tbd::platform_name(p);
    if a is Arm64e {
        assert(s.len() == 6 && s[0] == 'a');
    }
    if a is X86_64 {
        assert(s.len() == 6 && s[0] == 'x');
    }
    if p is Ios {
        assert(q.len() == 3);
    }
    if p is WatchOs {
        assert(q.len() == 7);
    }
    if p is TvOs {
        assert(q.len() == 4);
    }
    if p is DriverKit {
        assert(q.len() == 9);
    }
    if p is MacCatalyst {
        assert(q.len() == 11);
    }
}

proof fn lemma_digits(n: nat)
    ensures
        tbd::digits_value(text::dec(n)) == Some(n),
        text::dec(n).len() > 0,
        forall|i: int| 0 <= i < text::dec(n).len() ==> #[trigger] text::dec(n)[i] != '.',
    decreases n,
{
    let s = text::dec(n);
    let front = s.drop_last();
    if n < 10 {
        assert(front =~= seq![]);
        assert(tbd::digits_value(front) == Some(0nat));
    } else {
        lemma_digits(n / 10);
        assert(front =~= text::dec(n / 10));
        assert forall|i: int| 0 <= i < s.len() implies #[trigger] s[i] != '.' by {
            if i < front.len() {
                assert(s[i] == text::dec(n / 10)[i]);
            }
        }
    }
}

proof fn lemma_split_tail(s: Seq<char>, tail: Seq<char>)
    requires
        forall|i: int| 0 <= i < tail.len() ==> tail[i] != '.',
    ensures
        text::split(s, '.').len() > 0,
        text::split(s + tail, '.') == text::split(s, '.').drop_last().push(
            text::split(s, '.').last() + tail,
        ),
    decreases tail.len(),
{
    let p = text::split(s, '.');
    text::lemma_split_nonempty(s, '.');
    if tail.len() == 0 {
        assert(s + tail =~= s);
        assert(p.last() + tail =~= p.last());
        assert(p.drop_last().push(p.last()) =~= p);
    } else {
        let front = tail.drop_last();
        lemma_split_tail(s, front);
        assert((s + tail).drop_last() =~= s + front);
        let q = text::split(s + front, '.');
        assert(q.drop_last() =~= p.drop_last());
        assert((p.last() + front).push(tail.last()) =~= p.last() + tail);
    }
}

proof fn lemma_split_dot(s: Seq<char>)
    ensures
        text::split(s.push('.'), '.') == text::split(s, '.').push(seq![]),
{
    assert(s.push('.').drop_last() =~= s);
}

proof fn lemma_packed(a: u32, b: u32, c: u32)
    requires
        a <= 0xffff,
        b <= 0xff,
        c <= 0xff,
    ensures
        ((a << 16) | (b << 8) | c) == a * 0x10000 + b * 0x100 + c,
{
    assert(((a << 16) | (b << 8) | c) == a * 0x10000 + b * 0x100 + c) by (bit_vector)
        requires
            a <= 0xffff,
            b <= 0xff,
            c <= 0xff,
    ;
}

/// A version of three numbers is read as one: the first counts in units of 65536, the
/// second in units of 256 and the third in ones.
pub proof fn law_version_is_read(a: nat, b: nat, c: nat, context: Seq<char>)
    requires
        a <= 0xffff,
        b <= 0xff,
        c <= 0xff,
    ensures
        tbd::version_of(
            text::dec(a).push('.') + text::dec(b).push('.') + text::dec(c),
            context,
        ) == Ok::<u32, TbdFault>((a * 0x10000 + b * 0x100 + c) as u32),
{
    let empty = Seq::<char>::empty();
    let one = text::dec(a);
    let two = one.push('.') + text::dec(b);
    let three = two.push('.') + text::dec(c);
    lemma_digits(a);
    lemma_digits(b);
    lemma_digits(c);
    lemma_split_tail(empty, one);
    assert(text::split(empty, '.') =~= seq![empty]);
    assert(empty + one =~= one);
    assert(text::split(one, '.') =~= seq![one]);
    lemma_split_dot(one);
    lemma_split_tail(one.push('.'), text::dec(b));
    assert(empty + text::dec(b) =~= text::dec(b));
    assert(text::split(two, '.') =~= seq![one, text::dec(b)]);
    lemma_split_dot(two);
    lemma_split_tail(two.push('.'), text::dec(c));
    assert(empty + text::dec(c) =~= text::dec(c));
    let parts = seq![one, text::dec(b), text::dec(c)];
    assert(text::split(three, '.') =~= parts);
    assert(text::dec(a).push('.') + text::dec(b).push('.') + text::dec(c) =~= three);
    assert(parts.len() == 3 && parts[0] == one && parts[1] == text::dec(b) && parts[2]
        == text::dec(c));
    lemma_packed(a as u32, b as u32, c as u32);
}

} // verus!
