//! How the sections of a patch follow one another, stated on the files.

use crate::hashline::laws::lemma_slot_of;
use crate::hashline::patch::{ErrorView, SectionView};
use crate::hashline::plan::{
    built, file_at, group_ops, lowered, plan, section_ops, slot_of, ChangeView, OpView,
};
use crate::hashline::Blocks;
use crate::text::lines;
use vstd::prelude::*;

verus! {

/// Every operation of a section is carried out, in the order they stand in, each
/// on the file as the section found it; where one cannot be, none is.
pub proof fn law_every_operation_is_carried_out<B: Blocks>(
    section: SectionView,
    n: int,
    k: int,
    content: Seq<char>,
    blocks: &B,
)
    requires
        0 <= k < n,
    ensures
        group_ops(section, section.groups[k], content, blocks) is Err ==> section_ops(
            section,
            n,
            content,
            blocks,
        ) is Err,
        section_ops(section, n, content, blocks) matches Ok(ops) ==> {
            let before = section_ops(section, k, content, blocks);
            let upto = section_ops(section, k + 1, content, blocks);
            &&& before is Ok && upto is Ok
            &&& before->Ok_0.len() <= upto->Ok_0.len() <= ops.len()
            &&& group_ops(section, section.groups[k], content, blocks) == Ok::<
                Seq<OpView>,
                ErrorView,
            >(ops.subrange(before->Ok_0.len() as int, upto->Ok_0.len() as int))
        },
        section_ops(section, 0, content, blocks) == Ok::<Seq<OpView>, ErrorView>(Seq::empty()),
    decreases n,
{
    let all = section_ops(section, n, content, blocks);
    if k < n - 1 {
        law_every_operation_is_carried_out(section, n - 1, k, content, blocks);
        if all is Ok {
            let less = section_ops(section, n - 1, content, blocks)->Ok_0;
            let a = section_ops(section, k, content, blocks)->Ok_0.len() as int;
            let b = section_ops(section, k + 1, content, blocks)->Ok_0.len() as int;
            assert(all->Ok_0.subrange(a, b) =~= less.subrange(a, b));
        }
    } else if all is Ok {
        let less = section_ops(section, k, content, blocks)->Ok_0;
        let more = group_ops(section, section.groups[k], content, blocks)->Ok_0;
        assert(all->Ok_0.subrange(less.len() as int, all->Ok_0.len() as int) =~= more);
    }
}

proof fn lemma_file_at(files: Seq<(Seq<char>, Seq<char>)>, path: Seq<char>, f: int)
    requires
        0 <= f < files.len(),
        files[f].0 == path,
        forall|g: int| 0 <= g < f ==> (#[trigger] files[g]).0 != path,
    ensures
        file_at(files, path) == Some(files[f].1),
    decreases files.len(),
{
    if f > 0 {
        assert(files[0].0 != path);
        let rest = files.skip(1);
        assert(rest[f - 1] == files[f]);
        assert forall|g: int| 0 <= g < f - 1 implies (#[trigger] rest[g]).0 != path by {
            assert(rest[g] == files[g + 1]);
        }
        lemma_file_at(rest, path, f - 1);
    }
}

proof fn lemma_no_file(files: Seq<(Seq<char>, Seq<char>)>, path: Seq<char>)
    requires
        forall|g: int| 0 <= g < files.len() ==> (#[trigger] files[g]).0 != path,
    ensures
        file_at(files, path) is None,
    decreases files.len(),
{
    if files.len() > 0 {
        assert(files[0].0 != path);
        let rest = files.skip(1);
        assert forall|g: int| 0 <= g < rest.len() implies (#[trigger] rest[g]).0 != path by {
            assert(rest[g] == files[g + 1]);
        }
        lemma_no_file(rest, path);
    }
}

/// What a section makes of the text it finds.
pub open spec fn made<B: Blocks>(s: SectionView, text: Seq<char>, blocks: &B) -> Result<
    ChangeView,
    ErrorView,
> {
    match lowered(s, text, blocks) {
        Err(e) => Err(e),
        Ok(ops) => built(s.path, ops, text, blocks),
    }
}

/// A section finds the file as the sections before left it, and what was on hand
/// where none of them changed it. It changes that file and no other.
pub proof fn law_a_section_finds_what_was_left<B: Blocks>(
    sections: Seq<SectionView>,
    n: int,
    files: Seq<(Seq<char>, Seq<char>)>,
    blocks: &B,
    i: int,
    f: int,
)
    requires
        0 < n <= sections.len(),
        plan(sections, n - 1, files, blocks) is Ok,
    ensures
        ({
            let s = sections[n - 1];
            let before = plan(sections, n - 1, files, blocks)->Ok_0;
            let after = plan(sections, n, files, blocks);
            let fresh = forall|j: int|
                0 <= j < before.len() ==> (#[trigger] before[j]).path != s.path;
            &&& 0 <= i < before.len() && before[i].path == s.path && (forall|j: int|
                0 <= j < i ==> (#[trigger] before[j]).path != s.path) ==> {
                let m = made(s, before[i].content, blocks);
                &&& m is Err ==> after == Err::<Seq<ChangeView>, ErrorView>(m->Err_0)
                &&& m is Ok ==> after is Ok && after->Ok_0.len() == before.len()
                    && after->Ok_0[i].path == s.path && after->Ok_0[i].content == m->Ok_0.content
            }
            &&& 0 <= i < before.len() && before[i].path != s.path && after is Ok ==> i
                < after->Ok_0.len() && after->Ok_0[i] == before[i]
            &&& fresh && 0 <= f < files.len() && files[f].0 == s.path && (forall|g: int|
                0 <= g < f ==> (#[trigger] files[g]).0 != s.path) ==> {
                let m = made(s, files[f].1, blocks);
                &&& m is Err ==> after == Err::<Seq<ChangeView>, ErrorView>(m->Err_0)
                &&& m is Ok ==> after == Ok::<Seq<ChangeView>, ErrorView>(before.push(m->Ok_0))
            }
            &&& fresh && (forall|g: int| 0 <= g < files.len() ==> (#[trigger] files[g]).0 != s.path)
                ==> after == Err::<Seq<ChangeView>, ErrorView>(
                (ErrorView::Missing { path: s.path }),
            )
        }),
{
    let s = sections[n - 1];
    let before = plan(sections, n - 1, files, blocks)->Ok_0;
    lemma_slot_of(before, s.path);
    let at = slot_of(before, s.path);
    if at < before.len() {
        assert(before[at].path == s.path);
    }
    if 0 <= i < before.len() && before[i].path == s.path && (forall|j: int|
        0 <= j < i ==> (#[trigger] before[j]).path != s.path) {
        if at < i {
            assert(before[at].path != s.path);
        }
        assert(at == i);
    }
    if 0 <= f < files.len() && files[f].0 == s.path && (forall|g: int|
        0 <= g < f ==> (#[trigger] files[g]).0 != s.path) {
        lemma_file_at(files, s.path, f);
    }
    if forall|g: int| 0 <= g < files.len() ==> (#[trigger] files[g]).0 != s.path {
        lemma_no_file(files, s.path);
    }
}

/// A patch finds nothing in an empty file.
pub proof fn law_an_empty_file_cannot_be_patched<B: Blocks>(
    s: SectionView,
    content: Seq<char>,
    blocks: &B,
)
    ensures
        content.len() == 0 ==> lowered(s, content, blocks) is Err,
        lines(content).len() > 0 && s.groups.len() == 0 ==> lowered(s, content, blocks) is Ok,
{
}

} // verus!
