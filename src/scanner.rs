//! Pairing the files of a folder: each JPEG with the RAF file of the same
//! base name, compared without regard to case, ordered by base name.
use vstd::prelude::*;

use crate::decode::{is_jpeg_name, lower_of, lowercase};
use crate::keyed::{has_key, key_index, key_position, lemma_key_index, lemma_push_fresh, lemma_remove_key, remove_key, unique_keys};
use crate::photo_pair::{DeletionAction, PhotoPair};

verus! {

/// A file of the folder: its path, the file name without its extension, and
/// the extension.
pub struct FileEntry {
    pub path: String,
    pub stem: String,
    pub extension: String,
}

/// What `str::to_uppercase` gives for these characters.
pub uninterp spec fn upper_of(s: Seq<char>) -> Seq<char>;

/// Relies on str::to_uppercase: the result depends on the characters alone.
#[verifier::external_body]
fn uppercase(s: &String) -> (r: String)
    ensures
        r@ == upper_of(s@),
{
    s.to_uppercase()
}

/// `a` comes before `b` in lexicographic order of code points.
pub open spec fn name_lt(a: Seq<char>, b: Seq<char>) -> bool
    decreases a.len(),
{
    if a.len() == 0 {
        b.len() > 0
    } else if b.len() == 0 {
        false
    } else if a[0] != b[0] {
        (a[0] as int) < (b[0] as int)
    } else {
        name_lt(a.drop_first(), b.drop_first())
    }
}

/// Two different names are ordered one way or the other.
proof fn lemma_name_lt_total(a: Seq<char>, b: Seq<char>)
    requires
        a != b,
    ensures
        name_lt(a, b) || name_lt(b, a),
    decreases a.len(),
{
    if a.len() > 0 && b.len() > 0 && a[0] == b[0] {
        if a.drop_first() == b.drop_first() {
            assert(a =~= seq![a[0]] + a.drop_first());
            assert(b =~= seq![b[0]] + b.drop_first());
        }
        lemma_name_lt_total(a.drop_first(), b.drop_first());
    } else if a.len() > 0 && b.len() > 0 {
        assert((a[0] as int) != (b[0] as int));
    } else if a.len() == 0 && b.len() == 0 {
        assert(a =~= b);
    }
}

/// Relies on `Ord for String`: strings compare lexicographically by their
/// UTF-8 bytes, which orders them as their code points.
#[verifier::external_body]
fn text_lt(a: &String, b: &String) -> (r: bool)
    ensures
        r == name_lt(a@, b@),
{
    a < b
}

/// 1 for a JPEG file, 2 for a RAF file, 0 for any other.
pub open spec fn entry_kind(e: FileEntry) -> int {
    if is_jpeg_name(lower_of(e.extension@)) {
        1
    } else if lower_of(e.extension@) == seq!['r', 'a', 'f'] {
        2
    } else {
        0
    }
}

/// The base name that pairs files: the stem in upper case.
pub open spec fn entry_base(e: FileEntry) -> Seq<char> {
    upper_of(e.stem@)
}

/// The position of the last entry of kind `kind` with base name `base`.
pub open spec fn last_of(entries: Seq<FileEntry>, kind: int, base: Seq<char>) -> Option<int>
    decreases entries.len(),
{
    if entries.len() == 0 {
        None
    } else if entry_kind(entries.last()) == kind && entry_base(entries.last()) == base {
        Some(entries.len() - 1)
    } else {
        last_of(entries.drop_last(), kind, base)
    }
}

proof fn lemma_last_of_bounds(entries: Seq<FileEntry>, kind: int, base: Seq<char>)
    ensures
        last_of(entries, kind, base) matches Some(i) ==> 0 <= i < entries.len()
            && entry_kind(entries[i]) == kind && entry_base(entries[i]) == base,
    decreases entries.len(),
{
    if entries.len() > 0 {
        lemma_last_of_bounds(entries.drop_last(), kind, base);
    }
}

/// `entry` holds the path of the last entry of kind `kind` with its base name.
pub open spec fn holds_last(entries: Seq<FileEntry>, kind: int, entry: (String, String)) -> bool {
    match last_of(entries, kind, entry.0@) {
        Some(i) => entry.1 == entries[i].path,
        None => false,
    }
}

/// The entries of `store` are exactly the base names of kind `kind` among
/// `entries`, each with the path of the last such entry.
pub open spec fn store_matches(store: Seq<(String, String)>, entries: Seq<FileEntry>, kind: int) -> bool {
    &&& unique_keys(store)
    &&& forall|k: Seq<char>| has_key(store, k) <==> last_of(entries, kind, k).is_some()
    &&& forall|j: int| 0 <= j < store.len() ==> holds_last(entries, kind, #[trigger] store[j])
}

/// Adds the entry at the end of `entries` to a store that matched the ones
/// before it.
fn record(store: &mut Vec<(String, String)>, base: String, e: &FileEntry, Ghost(entries): Ghost<Seq<FileEntry>>, Ghost(kind): Ghost<int>)
    requires
        entries.len() > 0,
        entries.last() == *e,
        base@ == entry_base(*e),
        entry_kind(*e) == kind,
        store_matches(old(store)@, entries.drop_last(), kind),
    ensures
        store_matches(final(store)@, entries, kind),
{
    let ghost prev = entries.drop_last();
    let ghost s0 = store@;
    if let Some(i) = key_position(store, &base) {
        proof {
            lemma_key_index(store@, base@, i as int);
        }
        store.remove(i);
    }
    proof {
        lemma_remove_key(s0, base@);
    }
    let ghost s1 = store@;
    assert(s1 == remove_key(s0, base@));
    let path = e.path.clone();
    proof {
        lemma_push_fresh(s1, base, path);
    }
    store.push((base, path));
    proof {
        let s2 = store@;
        assert forall|k: Seq<char>| has_key(s2, k) <==> last_of(entries, kind, k).is_some() by {
            if k != base@ {
                assert(has_key(s2, k) == has_key(s0, k));
            }
        }
        assert forall|j: int| 0 <= j < s2.len() implies holds_last(entries, kind, #[trigger] s2[j]) by {
            if j < s1.len() {
                let k = s2[j].0@;
                if has_key(s0, base@) {
                    let r = key_index(s0, base@);
                    let j0 = if j < r { j } else { j + 1 };
                    assert(s1[j] == s0[j0]);
                    assert(k != base@);
                    assert(holds_last(prev, kind, s0[j0]));
                } else {
                    assert(s1[j] == s0[j]);
                    assert(k != base@) by {
                        assert(has_key(s0, s0[j].0@));
                    }
                    assert(holds_last(prev, kind, s0[j]));
                }
                lemma_last_of_bounds(prev, kind, k);
            }
        }
    }
}

/// An entry of another kind leaves a matching store matching.
proof fn lemma_other_kind(store: Seq<(String, String)>, sub: Seq<FileEntry>, kind: int)
    requires
        sub.len() > 0,
        entry_kind(sub.last()) != kind,
        store_matches(store, sub.drop_last(), kind),
    ensures
        store_matches(store, sub, kind),
{
    let prev = sub.drop_last();
    assert forall|k: Seq<char>| last_of(sub, kind, k) == last_of(prev, kind, k) by {}
    assert forall|j: int| 0 <= j < store.len() implies holds_last(sub, kind, #[trigger] store[j]) by {
        assert(holds_last(prev, kind, store[j]));
        lemma_last_of_bounds(prev, kind, store[j].0@);
    }
}

/// The JPEG and RAF files of `entries`, each under its base name, with the
/// path of the last file of that kind and name.
fn sort_into_stores(entries: &Vec<FileEntry>) -> (r: (Vec<(String, String)>, Vec<(String, String)>))
    ensures
        store_matches(r.0@, entries@, 1),
        store_matches(r.1@, entries@, 2),
{
    let jpg = "jpg".to_owned();
    let jpeg = "jpeg".to_owned();
    let raf = "raf".to_owned();
    proof {
        reveal_strlit("jpg");
        reveal_strlit("jpeg");
        reveal_strlit("raf");
        assert(raf@ =~= seq!['r', 'a', 'f']);
    }
    let mut jpegs: Vec<(String, String)> = Vec::new();
    let mut raws: Vec<(String, String)> = Vec::new();
    let mut i: usize = 0;
    while i < entries.len()
        invariant
            i <= entries@.len(),
            raf@ == seq!['r', 'a', 'f'],
            jpg@ == "jpg"@,
            jpeg@ == "jpeg"@,
            store_matches(jpegs@, entries@.subrange(0, i as int), 1),
            store_matches(raws@, entries@.subrange(0, i as int), 2),
        decreases entries@.len() - i,
    {
        let e = &entries[i];
        let ext = lowercase(&e.extension);
        let base = uppercase(&e.stem);
        let ghost sub = entries@.subrange(0, i + 1);
        let ghost prev = entries@.subrange(0, i as int);
        proof {
            assert(sub.drop_last() =~= prev);
            assert(sub.last() == *e);
        }
        if ext == jpg || ext == jpeg {
            record(&mut jpegs, base, e, Ghost(sub), Ghost(1));
            proof {
                lemma_other_kind(raws@, sub, 2);
            }
        } else if ext == raf {
            record(&mut raws, base, e, Ghost(sub), Ghost(2));
            proof {
                lemma_other_kind(jpegs@, sub, 1);
            }
        } else {
            proof {
                lemma_other_kind(jpegs@, sub, 1);
                lemma_other_kind(raws@, sub, 2);
            }
        }
        i += 1;
    }
    proof {
        assert(entries@.subrange(0, i as int) =~= entries@);
    }
    (jpegs, raws)
}

/// `p` is the pair for its base name: the last JPEG file of that name, the
/// last RAF file of that name if there is one, and nothing marked.
pub open spec fn pair_of(entries: Seq<FileEntry>, p: PhotoPair) -> bool {
    &&& p.action == DeletionAction::KeepBoth
    &&& match last_of(entries, 1, p.basename@) {
        Some(i) => p.jpeg_path == entries[i].path,
        None => false,
    }
    &&& p.raw_path == match last_of(entries, 2, p.basename@) {
        Some(i) => Some(entries[i].path),
        None => None::<String>,
    }
}

/// Each base name comes strictly before the next.
pub open spec fn sorted_by_name(s: Seq<PhotoPair>) -> bool {
    forall|q: int|
        #![trigger s[q], s[q + 1]]
        0 <= q < s.len() - 1 ==> name_lt(s[q].basename@, s[q + 1].basename@)
}

proof fn lemma_insert_sorted(o0: Seq<PhotoPair>, p: int, pair: PhotoPair)
    requires
        sorted_by_name(o0),
        0 <= p <= o0.len(),
        p > 0 ==> name_lt(o0[p - 1].basename@, pair.basename@),
        p < o0.len() ==> name_lt(pair.basename@, o0[p].basename@),
    ensures
        sorted_by_name(o0.insert(p, pair)),
{
    let o1 = o0.insert(p, pair);
    assert forall|q: int|
        #![trigger o1[q], o1[q + 1]]
        0 <= q < o1.len() - 1 implies name_lt(o1[q].basename@, o1[q + 1].basename@) by {
        if q < p - 1 {
            assert(o1[q] == o0[q] && o1[q + 1] == o0[q + 1]);
            assert(name_lt(o0[q].basename@, o0[q + 1].basename@));
        } else if q == p - 1 {
            assert(o1[q] == o0[p - 1] && o1[q + 1] == pair);
        } else if q == p {
            assert(o1[q] == pair && o1[q + 1] == o0[p]);
        } else {
            let r = q - 1;
            assert(o1[q] == o0[r] && o1[q + 1] == o0[r + 1]);
            assert(name_lt(o0[r].basename@, o0[r + 1].basename@));
        }
    }
}

/// Inserts `pair` before the first entry whose base name comes after its own.
fn insert_by_name(out: &mut Vec<PhotoPair>, pair: PhotoPair) -> (p: usize)
    requires
        sorted_by_name(old(out)@),
        forall|q: int| 0 <= q < old(out)@.len() ==> (#[trigger] old(out)@[q]).basename@ != pair.basename@,
    ensures
        p <= old(out)@.len(),
        final(out)@ == old(out)@.insert(p as int, pair),
        sorted_by_name(final(out)@),
{
    let mut p: usize = 0;
    while p < out.len() && !text_lt(&pair.basename, &out[p].basename)
        invariant
            p <= out@.len(),
            forall|q: int| 0 <= q < p ==> !name_lt(pair.basename@, (#[trigger] out@[q]).basename@),
        decreases out@.len() - p,
    {
        p += 1;
    }
    let ghost o0 = out@;
    let ghost pr = pair;
    proof {
        if p > 0 {
            lemma_name_lt_total(o0[p - 1].basename@, pair.basename@);
        }
        lemma_insert_sorted(o0, p as int, pr);
    }
    out.insert(p, pair);
    p
}

/// The pairs so far cover exactly the first `j` JPEG base names.
pub open spec fn covers(entries: Seq<FileEntry>, jpegs: Seq<(String, String)>, j: int, out: Seq<PhotoPair>) -> bool {
    &&& forall|q: int|
        0 <= q < out.len() ==> pair_of(entries, #[trigger] out[q]) && has_key(
            jpegs.subrange(0, j),
            out[q].basename@,
        )
    &&& forall|t: int|
        0 <= t < j ==> exists|q: int|
            0 <= q < out.len() && (#[trigger] out[q]).basename@ == (#[trigger] jpegs[t]).0@
}

proof fn lemma_fresh_name(jpegs: Seq<(String, String)>, j: int, out: Seq<PhotoPair>)
    requires
        unique_keys(jpegs),
        0 <= j < jpegs.len(),
        forall|q: int| 0 <= q < out.len() ==> has_key(jpegs.subrange(0, j), (#[trigger] out[q]).basename@),
    ensures
        forall|q: int| 0 <= q < out.len() ==> (#[trigger] out[q]).basename@ != jpegs[j].0@,
{
    assert forall|q: int| 0 <= q < out.len() implies (#[trigger] out[q]).basename@ != jpegs[j].0@ by {
        if out[q].basename@ == jpegs[j].0@ {
            let t = choose|t: int| 0 <= t < j && (#[trigger] jpegs.subrange(0, j)[t]).0@ == out[q].basename@;
            assert(jpegs[t].0@ == jpegs[j].0@);
        }
    }
}

proof fn lemma_after_insert(
    entries: Seq<FileEntry>,
    jpegs: Seq<(String, String)>,
    j: int,
    o0: Seq<PhotoPair>,
    p: int,
    pair: PhotoPair,
)
    requires
        0 <= j < jpegs.len(),
        0 <= p <= o0.len(),
        pair.basename@ == jpegs[j].0@,
        pair_of(entries, pair),
        covers(entries, jpegs, j, o0),
    ensures
        covers(entries, jpegs, j + 1, o0.insert(p, pair)),
{
    let o1 = o0.insert(p, pair);
    let js = jpegs.subrange(0, j + 1);
    assert forall|q: int| 0 <= q < o1.len() implies pair_of(entries, #[trigger] o1[q]) && has_key(js, o1[q].basename@) by {
        if q == p {
            assert(js[j].0@ == pair.basename@);
        } else {
            let q0 = if q < p { q } else { q - 1 };
            assert(o1[q] == o0[q0]);
            assert(pair_of(entries, o0[q0]) && has_key(jpegs.subrange(0, j), o0[q0].basename@));
            let t = choose|t: int| 0 <= t < j && (#[trigger] jpegs.subrange(0, j)[t]).0@ == o0[q0].basename@;
            assert(js[t].0@ == o0[q0].basename@);
        }
    }
    assert forall|t: int| 0 <= t < j + 1 implies exists|q: int|
        0 <= q < o1.len() && (#[trigger] o1[q]).basename@ == (#[trigger] jpegs[t]).0@ by {
        if t == j {
            assert(o1[p].basename@ == jpegs[t].0@);
        } else {
            assert(jpegs[t] == jpegs[t]);
            let q0 = choose|q: int| 0 <= q < o0.len() && (#[trigger] o0[q]).basename@ == jpegs[t].0@;
            let q1 = if q0 < p { q0 } else { q0 + 1 };
            assert(o1[q1] == o0[q0]);
        }
    }
}

/// Pairs the JPEG files among `entries` with the RAF files of the same base
/// name. Extensions are compared in lower case (`jpg`, `jpeg`, `raf`), base
/// names in upper case; where several files share a kind and a base name,
/// the last one counts. One pair per JPEG base name, in order of base name.
pub fn pair_files(entries: &Vec<FileEntry>) -> (r: Vec<PhotoPair>)
    ensures
        sorted_by_name(r@),
        forall|q: int| 0 <= q < r@.len() ==> pair_of(entries@, #[trigger] r@[q]),
        forall|k: Seq<char>|
            #![trigger last_of(entries@, 1, k)]
            last_of(entries@, 1, k).is_some() ==> exists|q: int|
                0 <= q < r@.len() && (#[trigger] r@[q]).basename@ == k,
{
    let (jpegs, raws) = sort_into_stores(entries);
    let mut out: Vec<PhotoPair> = Vec::new();
    let mut j: usize = 0;
    while j < jpegs.len()
        invariant
            j <= jpegs@.len(),
            store_matches(jpegs@, entries@, 1),
            store_matches(raws@, entries@, 2),
            sorted_by_name(out@),
            covers(entries@, jpegs@, j as int, out@),
        decreases jpegs@.len() - j,
    {
        let base = jpegs[j].0.clone();
        let path = jpegs[j].1.clone();
        proof {
            assert(holds_last(entries@, 1, jpegs@[j as int]));
        }
        let raw = match key_position(&raws, &base) {
            Some(p) => {
                proof {
                    assert(holds_last(entries@, 2, raws@[p as int]));
                }
                Some(raws[p].1.clone())
            },
            None => None,
        };
        let pair = PhotoPair::new(base, path, raw);
        proof {
            assert(pair_of(entries@, pair));
            lemma_fresh_name(jpegs@, j as int, out@);
        }
        let ghost o0 = out@;
        let ghost pr = pair;
        let p = insert_by_name(&mut out, pair);
        proof {
            lemma_after_insert(entries@, jpegs@, j as int, o0, p as int, pr);
        }
        j += 1;
    }
    proof {
        assert(jpegs@.subrange(0, j as int) =~= jpegs@);
        assert forall|k: Seq<char>| #![trigger last_of(entries@, 1, k)]
            last_of(entries@, 1, k).is_some() implies exists|q: int|
                0 <= q < out@.len() && (#[trigger] out@[q]).basename@ == k by {
            assert(has_key(jpegs@, k));
            let t = choose|t: int| 0 <= t < jpegs@.len() && (#[trigger] jpegs@[t]).0@ == k;
            assert(jpegs@[t].0@ == k);
        }
    }
    out
}

} // verus!
