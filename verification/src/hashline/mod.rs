//! Edits anchored on the text of a file: what a call names, where it lands,
//! and why it is refused.

use vstd::prelude::*;
use vstd::string::*;

pub mod apply;
pub mod edit_laws;
pub mod edits;
pub mod landing;
pub mod laws;
pub mod matching;
pub mod parse;
pub mod parse_laws;
pub mod patch;
pub mod patch_laws;
pub mod plan;
pub mod plan_laws;
pub mod stacking;
pub mod told_laws;
pub mod unified;
pub mod unified_laws;

verus! {

/// Name for a file in a report or a refusal, as the views print it.
pub fn header(path: &str) -> (r: String)
    ensures
        r@ == seq!['['] + path@ + seq![']'],
{
    let mut r = String::new();
    r.push('[');
    r.append(path);
    r.push(']');
    assert(r@ =~= seq!['['] + path@ + seq![']']);
    r
}

/// One byte folded into an FNV-1a hash of 32 bits.
pub open spec fn fnv_step(h: u32, b: u8) -> u32 {
    (((h ^ (b as u32)) as int * 0x0100_0193) % 0x1_0000_0000) as u32
}

/// The FNV-1a hash of 32 bits over `bytes`.
pub open spec fn fnv(bytes: Seq<u8>) -> u32
    decreases bytes.len(),
{
    if bytes.len() == 0 {
        0x811c_9dc5
    } else {
        fnv_step(fnv(bytes.drop_last()), bytes.last())
    }
}

/// The upper-case hexadecimal digit of `d`.
pub open spec fn hex_digit(d: int) -> char {
    if d < 10 {
        (0x30 + d) as char
    } else {
        (0x37 + d) as char
    }
}

/// The two halves of a hash folded into one, as four hexadecimal digits.
pub open spec fn folded(h: u32) -> Seq<char> {
    let x = ((h ^ (h >> 16)) & 0xffff) as int;
    seq![hex_digit(x / 0x1000), hex_digit(x / 0x100 % 16), hex_digit(x / 16 % 16), hex_digit(x % 16)]
}

fn hex_of(d: u32) -> (c: char)
    requires
        d < 16,
    ensures
        c == hex_digit(d as int),
{
    match d {
        0 => '0',
        1 => '1',
        2 => '2',
        3 => '3',
        4 => '4',
        5 => '5',
        6 => '6',
        7 => '7',
        8 => '8',
        9 => '9',
        10 => 'A',
        11 => 'B',
        12 => 'C',
        13 => 'D',
        14 => 'E',
        _ => 'F',
    }
}

/// Content hash for the staleness note: a file that changed underneath the
/// model since its last view gets a note beside the report.
pub fn view_hash(content: &str) -> (r: String)
    ensures
        r@ == folded(fnv(content.spec_bytes())),
{
    let bytes = content.as_bytes();
    let mut h: u32 = 0x811c_9dc5;
    let mut i: usize = 0;
    while i < bytes.len()
        invariant
            i <= bytes@.len(),
            bytes@ == content.spec_bytes(),
            h == fnv(bytes@.take(i as int)),
        decreases bytes@.len() - i,
    {
        let b: u32 = bytes[i] as u32;
        let x: u32 = h ^ b;
        h = x.wrapping_mul(0x0100_0193);
        i += 1;
        assert(bytes@.take(i as int).drop_last() =~= bytes@.take(i - 1));
    }
    assert(bytes@.take(i as int) =~= bytes@);
    let x: u32 = (h ^ (h >> 16)) & 0xffff;
    assert(x <= 0xffff) by (bit_vector)
        requires
            x == (h ^ (h >> 16)) & 0xffff,
    ;
    let mut r = String::new();
    r.push(hex_of(x / 0x1000));
    r.push(hex_of(x / 0x100 % 16));
    r.push(hex_of(x / 16 % 16));
    r.push(hex_of(x % 16));
    assert(r@ =~= folded(h));
    r
}

/// The blocks that open on the rows `openings`, in that order: what `extent`
/// gives of each row that opens one.
pub open spec fn opened(
    extent: spec_fn(usize) -> Option<(usize, usize)>,
    openings: Seq<usize>,
) -> Seq<(usize, usize)>
    decreases openings.len(),
{
    if openings.len() == 0 {
        Seq::empty()
    } else {
        let rest = opened(extent, openings.drop_last());
        match extent(openings.last()) {
            Some(e) => rest.push(e),
            None => rest,
        }
    }
}

/// Resolves a `whole_block` anchor to the block it names. Injected rather than
/// linked so that an edit stays a function of what it is given.
pub trait Blocks {
    /// What `extent_of` answers.
    spec fn extent_at(&self, path: Seq<char>, content: Seq<char>, line: usize) -> Option<
        (usize, usize),
    >;

    /// What `openings` answers.
    spec fn opening_rows(&self, path: Seq<char>, content: Seq<char>) -> Seq<usize>;

    /// The inclusive 1-based rows of the block at `line`, if there is one.
    /// Both ends: an annotation above the line belongs to what it annotates,
    /// so the start may sit above `line`.
    fn extent_of(&self, path: &str, content: &str, line: usize) -> (r: Option<(usize, usize)>)
        ensures
            r == self.extent_at(path@, content@, line),
    ;

    /// Every row a block opens on, in order. A `whole_block` anchor names one
    /// of these by prefix, matched against the line itself, so no per-language
    /// name grammar is needed.
    fn openings(&self, path: &str, content: &str) -> (r: Vec<usize>)
        ensures
            r@ == self.opening_rows(path@, content@),
    ;

    /// Every opening row with the block it opens, for a caller testing many
    /// rows against the outline at once. The default re-resolves per row.
    fn extents(&self, path: &str, content: &str) -> (r: Vec<(usize, usize)>)
        ensures
            r@ == opened(
                |line: usize| self.extent_at(path@, content@, line),
                self.opening_rows(path@, content@),
            ),
    {
        let opens = self.openings(path, content);
        let mut out: Vec<(usize, usize)> = Vec::new();
        let mut i: usize = 0;
        while i < opens.len()
            invariant
                i <= opens@.len(),
                out@ == opened(
                    |line: usize| self.extent_at(path@, content@, line),
                    opens@.take(i as int),
                ),
            decreases opens@.len() - i,
        {
            let e = self.extent_of(path, content, opens[i]);
            i += 1;
            assert(opens@.take(i as int).drop_last() =~= opens@.take(i - 1));
            if let Some(e) = e {
                out.push(e);
            }
        }
        assert(opens@.take(i as int) =~= opens@);
        out
    }
}

/// For callers with no parser: every `whole_block` anchor is refused.
pub struct NoBlocks;

impl Blocks for NoBlocks {
    open spec fn extent_at(&self, path: Seq<char>, content: Seq<char>, line: usize) -> Option<
        (usize, usize),
    > {
        None
    }

    open spec fn opening_rows(&self, path: Seq<char>, content: Seq<char>) -> Seq<usize> {
        Seq::empty()
    }

    fn extent_of(&self, _path: &str, _content: &str, _line: usize) -> (r: Option<(usize, usize)>) {
        None
    }

    fn openings(&self, _path: &str, _content: &str) -> (r: Vec<usize>) {
        Vec::new()
    }
}

/// The block that opens on `line`, in a table of opening rows and the rows their
/// blocks span.
pub open spec fn extent_in(blocks: Seq<(usize, usize, usize)>, line: usize) -> Option<
    (usize, usize),
>
    decreases blocks.len(),
{
    if blocks.len() == 0 {
        None
    } else if blocks[0].0 == line {
        Some((blocks[0].1, blocks[0].2))
    } else {
        extent_in(blocks.skip(1), line)
    }
}

/// For callers that have parsed the file already: the blocks of one file, each
/// as the row it opens on and the rows it spans, in order.
pub struct Table {
    pub blocks: Vec<(usize, usize, usize)>,
}

impl Blocks for Table {
    open spec fn extent_at(&self, path: Seq<char>, content: Seq<char>, line: usize) -> Option<
        (usize, usize),
    > {
        extent_in(self.blocks@, line)
    }

    open spec fn opening_rows(&self, path: Seq<char>, content: Seq<char>) -> Seq<usize> {
        Seq::new(self.blocks@.len(), |i: int| self.blocks@[i].0)
    }

    fn extent_of(&self, _path: &str, _content: &str, line: usize) -> (r: Option<(usize, usize)>) {
        let ghost all = self.blocks@;
        let mut i: usize = 0;
        assert(all.skip(0) =~= all);
        while i < self.blocks.len()
            invariant
                i <= self.blocks@.len(),
                all == self.blocks@,
                extent_in(all.skip(i as int), line) == extent_in(all, line),
            decreases self.blocks@.len() - i,
        {
            let (row, first, last) = self.blocks[i];
            assert(all.skip(i as int)[0] == all[i as int]);
            assert(all.skip(i as int).skip(1) =~= all.skip(i + 1));
            if row == line {
                return Some((first, last));
            }
            i += 1;
        }
        None
    }

    fn openings(&self, _path: &str, _content: &str) -> (r: Vec<usize>) {
        let mut r: Vec<usize> = Vec::new();
        let mut i: usize = 0;
        while i < self.blocks.len()
            invariant
                i <= self.blocks@.len(),
                r@.len() == i,
                forall|k: int| 0 <= k < i ==> r@[k] == self.blocks@[k].0,
            decreases self.blocks@.len() - i,
        {
            r.push(self.blocks[i].0);
            i += 1;
        }
        assert(r@ =~= Seq::new(self.blocks@.len(), |i: int| self.blocks@[i].0));
        r
    }
}

} // verus!
