//! What a set of marked photo pairs would delete: the files, in order, and
//! how many files and bytes that comes to.
use vstd::prelude::*;

use crate::photo_pair::{DeletionAction, PhotoPair};

verus! {

/// Counts and byte totals of the files marked for deletion.
#[derive(Debug)]
pub struct DeletionSummary {
    pub raw_count: usize,
    pub jpeg_count: usize,
    pub raw_bytes: u64,
    pub jpeg_bytes: u64,
}

impl Default for DeletionSummary {
    fn default() -> (r: Self)
        ensures
            r.raw_count == 0 && r.jpeg_count == 0 && r.raw_bytes == 0 && r.jpeg_bytes == 0,
    {
        DeletionSummary { raw_count: 0, jpeg_count: 0, raw_bytes: 0, jpeg_bytes: 0 }
    }
}

impl DeletionSummary {
    pub fn total_files(&self) -> (r: usize)
        requires
            self.raw_count + self.jpeg_count <= usize::MAX,
        ensures
            r == self.raw_count + self.jpeg_count,
    {
        self.raw_count + self.jpeg_count
    }

    /// The total size in words: whole bytes below 1024, otherwise the size in
    /// KB, MB or GB (powers of 1024) with two decimals, rounded to nearest
    /// with ties to even.
    pub fn format_size(&self) -> (r: String)
        requires
            self.raw_bytes + self.jpeg_bytes <= u64::MAX,
        ensures
            r@ == size_text((self.raw_bytes + self.jpeg_bytes) as nat),
    {
        let bytes = self.total_bytes();
        let mut out: Vec<char>;
        if bytes >= 1_073_741_824 {
            out = fixed_two(bytes, 1_073_741_824);
            out.push(' ');
            out.push('G');
            out.push('B');
        } else if bytes >= 1_048_576 {
            out = fixed_two(bytes, 1_048_576);
            out.push(' ');
            out.push('M');
            out.push('B');
        } else if bytes >= 1024 {
            out = fixed_two(bytes, 1024);
            out.push(' ');
            out.push('K');
            out.push('B');
        } else {
            out = decimal_chars(bytes);
            out.push(' ');
            out.push('b');
            out.push('y');
            out.push('t');
            out.push('e');
            out.push('s');
        }
        let r = chars_to_string(out);
        proof {
            let b = bytes as nat;
            if b >= 1073741824 {
                assert(r@ =~= fixed2(b, 1073741824) + seq![' ', 'G', 'B']);
            } else if b >= 1048576 {
                assert(r@ =~= fixed2(b, 1048576) + seq![' ', 'M', 'B']);
            } else if b >= 1024 {
                assert(r@ =~= fixed2(b, 1024) + seq![' ', 'K', 'B']);
            } else {
                assert(r@ =~= decimal(b) + seq![' ', 'b', 'y', 't', 'e', 's']);
            }
        }
        r
    }

    pub fn total_bytes(&self) -> (r: u64)
        requires
            self.raw_bytes + self.jpeg_bytes <= u64::MAX,
        ensures
            r == self.raw_bytes + self.jpeg_bytes,
    {
        self.raw_bytes + self.jpeg_bytes
    }
}

/// The character of the decimal digit `d`.
pub open spec fn digit_char(d: nat) -> char {
    if d == 0 {
        '0'
    } else if d == 1 {
        '1'
    } else if d == 2 {
        '2'
    } else if d == 3 {
        '3'
    } else if d == 4 {
        '4'
    } else if d == 5 {
        '5'
    } else if d == 6 {
        '6'
    } else if d == 7 {
        '7'
    } else if d == 8 {
        '8'
    } else {
        '9'
    }
}

/// `n` in decimal, without leading zeros.
pub open spec fn decimal(n: nat) -> Seq<char>
    decreases n,
{
    if n < 10 {
        seq![digit_char(n)]
    } else {
        decimal(n / 10).push(digit_char(n % 10))
    }
}

/// `100 * b / unit` rounded to nearest, ties to even.
pub open spec fn hundredths(b: nat, unit: nat) -> nat {
    let f = (b * 100) / unit;
    let r = (b * 100) % unit;
    if 2 * r > unit || (2 * r == unit && f % 2 == 1) {
        f + 1
    } else {
        f
    }
}

/// `b / unit` with two decimals.
pub open spec fn fixed2(b: nat, unit: nat) -> Seq<char> {
    let q = hundredths(b, unit);
    decimal(q / 100) + seq!['.', digit_char((q % 100) / 10), digit_char(q % 10)]
}

/// A byte count in words.
pub open spec fn size_text(b: nat) -> Seq<char> {
    if b >= 1073741824 {
        fixed2(b, 1073741824) + seq![' ', 'G', 'B']
    } else if b >= 1048576 {
        fixed2(b, 1048576) + seq![' ', 'M', 'B']
    } else if b >= 1024 {
        fixed2(b, 1024) + seq![' ', 'K', 'B']
    } else {
        decimal(b) + seq![' ', 'b', 'y', 't', 'e', 's']
    }
}

/// Relies on `String::from_iter` over characters: the string holds them in
/// order.
#[verifier::external_body]
fn chars_to_string(v: Vec<char>) -> (r: String)
    ensures
        r@ == v@,
{
    String::from_iter(v)
}

fn digit(d: u64) -> (c: char)
    requires
        d < 10,
    ensures
        c == digit_char(d as nat),
{
    if d == 0 {
        '0'
    } else if d == 1 {
        '1'
    } else if d == 2 {
        '2'
    } else if d == 3 {
        '3'
    } else if d == 4 {
        '4'
    } else if d == 5 {
        '5'
    } else if d == 6 {
        '6'
    } else if d == 7 {
        '7'
    } else if d == 8 {
        '8'
    } else {
        '9'
    }
}

fn decimal_chars(n: u64) -> (r: Vec<char>)
    ensures
        r@ == decimal(n as nat),
{
    let mut out: Vec<char> = Vec::new();
    let mut m = n;
    loop
        invariant
            decimal(n as nat) == decimal(m as nat) + out@,
        decreases m,
    {
        let c = digit(m % 10);
        if m < 10 {
            out.insert(0, c);
            assert(decimal(n as nat) =~= out@);
            return out;
        }
        proof {
            assert(decimal(m as nat) == decimal((m / 10) as nat).push(c));
        }
        out.insert(0, c);
        m = m / 10;
        assert(decimal(n as nat) =~= decimal(m as nat) + out@);
    }
}

/// `b / unit` with two decimals, as characters.
fn fixed_two(b: u64, unit: u64) -> (r: Vec<char>)
    requires
        unit > 0,
    ensures
        r@ == fixed2(b as nat, unit as nat),
{
    let x: u128 = b as u128 * 100;
    let u = unit as u128;
    let f = x / u;
    let rem = x % u;
    let q: u128 = if 2 * rem > u || (2 * rem == u && f % 2 == 1) {
        f + 1
    } else {
        f
    };
    assert(q == hundredths(b as nat, unit as nat));
    assert(q <= b as u128 * 100 + 1) by (nonlinear_arith)
        requires
            f == x / u,
            u > 0,
            x == b as u128 * 100,
            q <= f + 1,
    ;
    let whole = (q / 100) as u64;
    let mut out = decimal_chars(whole);
    out.push('.');
    out.push(digit(((q % 100) / 10) as u64));
    out.push(digit((q % 10) as u64));
    proof {
        assert(out@ =~= fixed2(b as nat, unit as nat));
    }
    out
}

/// The pair's RAW file is to be deleted.
pub open spec fn deletes_raw(p: PhotoPair) -> bool {
    p.action.removes_raw() && p.raw_path.is_some()
}

/// The pair's JPEG file is to be deleted.
pub open spec fn deletes_jpeg(p: PhotoPair) -> bool {
    p.action.removes_jpeg()
}

/// Totals over the pairs: RAW files, JPEG files, RAW bytes, JPEG bytes, where
/// `sizes[i]` gives the sizes of the JPEG and RAW files of `pairs[i]`.
pub open spec fn summary_of(pairs: Seq<PhotoPair>, sizes: Seq<(u64, u64)>) -> (int, int, int, int)
    decreases pairs.len(),
{
    if pairs.len() == 0 || sizes.len() == 0 {
        (0, 0, 0, 0)
    } else {
        let (rc, jc, rb, jb) = summary_of(pairs.drop_last(), sizes.drop_last());
        let p = pairs.last();
        let (js, rs) = sizes.last();
        (
            rc + if deletes_raw(p) { 1int } else { 0int },
            jc + if deletes_jpeg(p) { 1int } else { 0int },
            rb + if deletes_raw(p) { rs as int } else { 0int },
            jb + if deletes_jpeg(p) { js as int } else { 0int },
        )
    }
}

proof fn lemma_summary_grows(pairs: Seq<PhotoPair>, sizes: Seq<(u64, u64)>, n: int)
    requires
        pairs.len() == sizes.len(),
        0 <= n <= pairs.len(),
    ensures
        ({
            let a = summary_of(pairs.subrange(0, n), sizes.subrange(0, n));
            let b = summary_of(pairs, sizes);
            &&& 0 <= a.0 <= b.0 && 0 <= a.1 <= b.1
            &&& 0 <= a.2 <= b.2 && 0 <= a.3 <= b.3
            &&& b.0 <= pairs.len() && b.1 <= pairs.len()
        }),
    decreases pairs.len(),
{
    if pairs.len() > 0 {
        if n == pairs.len() {
            assert(pairs.subrange(0, n) =~= pairs);
            assert(sizes.subrange(0, n) =~= sizes);
            lemma_summary_grows(pairs.drop_last(), sizes.drop_last(), n - 1);
            assert(pairs.drop_last().subrange(0, n - 1) =~= pairs.drop_last());
            assert(sizes.drop_last().subrange(0, n - 1) =~= sizes.drop_last());
        } else {
            lemma_summary_grows(pairs.drop_last(), sizes.drop_last(), n);
            assert(pairs.drop_last().subrange(0, n) =~= pairs.subrange(0, n));
            assert(sizes.drop_last().subrange(0, n) =~= sizes.subrange(0, n));
        }
    }
}

/// Counts the files that the pairs' actions delete and adds up their sizes.
/// `sizes[i]` holds the sizes of the JPEG and the RAW file of `pairs[i]`
/// (the second is not read where there is no RAW file).
pub fn calculate_deletion_summary(pairs: &Vec<PhotoPair>, sizes: &Vec<(u64, u64)>) -> (r:
    DeletionSummary)
    requires
        pairs@.len() == sizes@.len(),
        summary_of(pairs@, sizes@).2 <= u64::MAX,
        summary_of(pairs@, sizes@).3 <= u64::MAX,
    ensures
        (r.raw_count as int, r.jpeg_count as int, r.raw_bytes as int, r.jpeg_bytes as int)
            == summary_of(pairs@, sizes@),
{
    let mut summary = DeletionSummary { raw_count: 0, jpeg_count: 0, raw_bytes: 0, jpeg_bytes: 0 };
    let mut i: usize = 0;
    while i < pairs.len()
        invariant
            pairs@.len() == sizes@.len(),
            i <= pairs@.len(),
            summary_of(pairs@, sizes@).2 <= u64::MAX,
            summary_of(pairs@, sizes@).3 <= u64::MAX,
            (
                summary.raw_count as int,
                summary.jpeg_count as int,
                summary.raw_bytes as int,
                summary.jpeg_bytes as int,
            ) == summary_of(pairs@.subrange(0, i as int), sizes@.subrange(0, i as int)),
        decreases pairs@.len() - i,
    {
        proof {
            lemma_summary_grows(pairs@, sizes@, i + 1);
            let ps = pairs@.subrange(0, i + 1);
            let ss = sizes@.subrange(0, i + 1);
            assert(ps.drop_last() =~= pairs@.subrange(0, i as int));
            assert(ss.drop_last() =~= sizes@.subrange(0, i as int));
        }
        let pair = &pairs[i];
        let (jpeg_size, raw_size) = sizes[i];
        let raw = pair.raw_path.is_some();
        match pair.action {
            DeletionAction::KeepBoth => {},
            DeletionAction::DeleteRaw => {
                if raw {
                    summary.raw_count += 1;
                    summary.raw_bytes += raw_size;
                }
            },
            DeletionAction::DeleteJpeg => {
                summary.jpeg_count += 1;
                summary.jpeg_bytes += jpeg_size;
            },
            DeletionAction::DeleteBoth => {
                summary.jpeg_count += 1;
                summary.jpeg_bytes += jpeg_size;
                if raw {
                    summary.raw_count += 1;
                    summary.raw_bytes += raw_size;
                }
            },
        }
        i += 1;
    }
    proof {
        assert(pairs@.subrange(0, i as int) =~= pairs@);
        assert(sizes@.subrange(0, i as int) =~= sizes@);
    }
    summary
}

/// The files that the pairs' actions delete, in order: per pair the JPEG
/// file first, then the RAW file.
pub open spec fn targets_of(pairs: Seq<PhotoPair>) -> Seq<String>
    decreases pairs.len(),
{
    if pairs.len() == 0 {
        Seq::empty()
    } else {
        let p = pairs.last();
        let a = targets_of(pairs.drop_last());
        let b = if deletes_jpeg(p) { a.push(p.jpeg_path) } else { a };
        if deletes_raw(p) { b.push(p.raw_path.unwrap()) } else { b }
    }
}

/// The paths of the files to delete, in the order of deletion.
pub fn deletion_targets(pairs: &Vec<PhotoPair>) -> (r: Vec<String>)
    ensures
        r@ == targets_of(pairs@),
{
    let mut out: Vec<String> = Vec::new();
    let mut i: usize = 0;
    while i < pairs.len()
        invariant
            i <= pairs@.len(),
            out@ == targets_of(pairs@.subrange(0, i as int)),
        decreases pairs@.len() - i,
    {
        proof {
            let ps = pairs@.subrange(0, i + 1);
            assert(ps.drop_last() =~= pairs@.subrange(0, i as int));
        }
        let pair = &pairs[i];
        match pair.action {
            DeletionAction::DeleteJpeg | DeletionAction::DeleteBoth => {
                out.push(pair.jpeg_path.clone());
            },
            _ => {},
        }
        match pair.action {
            DeletionAction::DeleteRaw | DeletionAction::DeleteBoth => {
                match &pair.raw_path {
                    Some(raw) => out.push(raw.clone()),
                    None => {},
                }
            },
            _ => {},
        }
        i += 1;
    }
    proof {
        assert(pairs@.subrange(0, i as int) =~= pairs@);
    }
    out
}

} // verus!
