//! The JSON payload format: string escaping, lexicographic key order, and
//! the key-sorted association list the files object is emitted from.
//!
//! The payload has a small fixed shape, so the whole format is written out
//! here as spec functions over character sequences and proved against the
//! executable emitters. Escaping follows the classic JSON rules: quote and
//! backslash get a backslash escape, the five named control characters get
//! their short escapes, every other control character and the delete
//! character become a `\u00..` sequence, and everything else passes
//! through untouched.

use vstd::prelude::*;
use vstd::string::*;

verus! {

// ---------------------------------------------------------------------------
// String escaping
// ---------------------------------------------------------------------------

/// The lower-case hexadecimal digit for a nibble.
pub open spec fn hex_digit(n: int) -> char {
    if n == 0 { '0' }
    else if n == 1 { '1' }
    else if n == 2 { '2' }
    else if n == 3 { '3' }
    else if n == 4 { '4' }
    else if n == 5 { '5' }
    else if n == 6 { '6' }
    else if n == 7 { '7' }
    else if n == 8 { '8' }
    else if n == 9 { '9' }
    else if n == 10 { 'a' }
    else if n == 11 { 'b' }
    else if n == 12 { 'c' }
    else if n == 13 { 'd' }
    else if n == 14 { 'e' }
    else { 'f' }
}

/// What one character contributes to an escaped JSON string.
pub open spec fn escape_char(c: char) -> Seq<char> {
    if c == '"' { seq!['\\', '"'] }
    else if c == '\\' { seq!['\\', '\\'] }
    else if c == '\u{8}' { seq!['\\', 'b'] }
    else if c == '\t' { seq!['\\', 't'] }
    else if c == '\n' { seq!['\\', 'n'] }
    else if c == '\u{c}' { seq!['\\', 'f'] }
    else if c == '\r' { seq!['\\', 'r'] }
    else if (c as u32) < 0x20 || c == '\u{7f}' {
        seq!['\\', 'u', '0', '0', hex_digit(((c as u32) / 16) as int), hex_digit(((c as u32) % 16) as int)]
    } else {
        seq![c]
    }
}

/// The escaped body of a JSON string, character by character.
pub open spec fn escape_string(s: Seq<char>) -> Seq<char>
    decreases s.len(),
{
    if s.len() == 0 {
        Seq::empty()
    } else {
        escape_char(s[0]) + escape_string(s.skip(1))
    }
}

/// A complete JSON string: the escaped body between double quotes.
pub open spec fn json_string(s: Seq<char>) -> Seq<char> {
    seq!['"'] + escape_string(s) + seq!['"']
}

/// Escaping processes the input left to right: extending the input by one
/// character appends that character's escape to the output.
pub proof fn lemma_escape_string_push(s: Seq<char>, c: char)
    ensures
        escape_string(s.push(c)) == escape_string(s) + escape_char(c),
    decreases s.len(),
{
    if s.len() == 0 {
        assert(s.push(c)[0] == c);
        assert(s.push(c).skip(1) =~= Seq::<char>::empty());
        assert(escape_string(s.push(c).skip(1)) == Seq::<char>::empty());
        assert(escape_string(s.push(c)) == escape_char(c) + Seq::<char>::empty());
        assert(escape_char(c) + Seq::<char>::empty() =~= escape_char(c));
        assert(escape_string(s) == Seq::<char>::empty());
        assert(Seq::<char>::empty() + escape_char(c) =~= escape_char(c));
    } else {
        let t = s.skip(1);
        assert(s.push(c)[0] == s[0]);
        assert(s.push(c).skip(1) =~= t.push(c));
        lemma_escape_string_push(t, c);
        assert(escape_string(s.push(c)) == escape_char(s[0]) + escape_string(t.push(c)));
        assert(escape_char(s[0]) + (escape_string(t) + escape_char(c)) =~= (escape_char(s[0])
            + escape_string(t)) + escape_char(c));
        assert(escape_string(s) == escape_char(s[0]) + escape_string(t));
    }
}

// ---------------------------------------------------------------------------
// File names: only the final path segment is used as a key
// ---------------------------------------------------------------------------

/// Whether a name contains a path separator.
pub open spec fn has_slash(s: Seq<char>) -> bool {
    exists|i: int| 0 <= i < s.len() && s[i] == '/'
}

/// The final path segment of a name: everything after the last `/`, or
/// the whole name when it contains no `/`. A name ending in `/` has an
/// empty final segment.
pub open spec fn basename(s: Seq<char>) -> Seq<char>
    decreases s.len(),
{
    if s.len() == 0 {
        s
    } else if s[0] == '/' || has_slash(s.skip(1)) {
        basename(s.skip(1))
    } else {
        s
    }
}

/// A name without separators is its own final segment.
pub proof fn lemma_basename_no_slash(s: Seq<char>)
    requires
        !has_slash(s),
    ensures
        basename(s) == s,
{
    if s.len() > 0 {
        assert(s[0] != '/');
        assert(!has_slash(s.skip(1))) by {
            if has_slash(s.skip(1)) {
                let i = choose|i: int| 0 <= i < s.skip(1).len() && s.skip(1)[i] == '/';
                assert(s[i + 1] == '/');
            }
        }
    }
}

/// The serialized key of a file named with path separators is exactly the
/// part after the last separator, however many directory levels precede
/// it: if position `j` holds the last `/` of the name, the final segment
/// is the suffix that follows it.
pub proof fn lemma_basename_after_slash(s: Seq<char>, j: int)
    requires
        0 <= j < s.len(),
        s[j] == '/',
        forall|i: int| j < i < s.len() ==> s[i] != '/',
    ensures
        basename(s) == s.skip(j + 1),
    decreases s.len(),
{
    if j == 0 {
        assert(basename(s) == basename(s.skip(1)));
        assert(!has_slash(s.skip(1))) by {
            if has_slash(s.skip(1)) {
                let i = choose|i: int| 0 <= i < s.skip(1).len() && s.skip(1)[i] == '/';
                assert(s[i + 1] == '/');
            }
        }
        lemma_basename_no_slash(s.skip(1));
    } else {
        assert(s.skip(1)[j - 1] == '/');
        assert(has_slash(s.skip(1)));
        assert(basename(s) == basename(s.skip(1)));
        assert(forall|i: int| j - 1 < i < s.skip(1).len() ==> s.skip(1)[i] != '/');
        lemma_basename_after_slash(s.skip(1), j - 1);
        assert(s.skip(1).skip(j) =~= s.skip(j + 1));
    }
}

/// Extracts the final path segment of a name.
pub fn basename_str(name: &str) -> (r: String)
    ensures
        r@ == basename(name@),
{
    let n = name.unicode_len();
    let mut start: usize = 0;
    let mut i: usize = 0;
    while i < n
        invariant
            start <= i <= n,
            n == name@.len(),
            start == 0 ==> forall|j: int| 0 <= j < i ==> name@[j] != '/',
            start > 0 ==> name@[start - 1] == '/' && (forall|j: int| start <= j < i ==> name@[j] != '/'),
        decreases n - i,
    {
        if name.get_char(i) == '/' {
            start = i + 1;
        }
        i = i + 1;
    }
    let tail = name.substring_char(start, n);
    proof {
        if start == 0 {
            assert(!has_slash(name@));
            lemma_basename_no_slash(name@);
            assert(name@.subrange(0, n as int) =~= name@);
        } else {
            lemma_basename_after_slash(name@, start - 1);
            assert(name@.subrange(start as int, n as int) =~= name@.skip(start as int));
        }
    }
    String::from_str(tail)
}

// ---------------------------------------------------------------------------
// Lexicographic order on keys
// ---------------------------------------------------------------------------

/// Strict lexicographic order on character sequences by code point, the
/// order in which the files object's keys are emitted. It agrees with the
/// byte order of the UTF-8 encodings, since UTF-8 preserves code point
/// order.
pub open spec fn lex_lt(a: Seq<char>, b: Seq<char>) -> bool
    decreases a.len(),
{
    if b.len() == 0 {
        false
    } else if a.len() == 0 {
        true
    } else if (a[0] as u32) < (b[0] as u32) {
        true
    } else if a[0] == b[0] {
        lex_lt(a.skip(1), b.skip(1))
    } else {
        false
    }
}

/// Nothing is lexicographically below itself.
pub proof fn lemma_lex_lt_irrefl(a: Seq<char>)
    ensures
        !lex_lt(a, a),
    decreases a.len(),
{
    if a.len() > 0 {
        lemma_lex_lt_irrefl(a.skip(1));
    }
}

/// The order is total: two sequences are ordered one way or the other, or
/// they are equal.
pub proof fn lemma_lex_lt_total(a: Seq<char>, b: Seq<char>)
    ensures
        lex_lt(a, b) || lex_lt(b, a) || a == b,
    decreases a.len(),
{
    if a.len() == 0 && b.len() == 0 {
        assert(a =~= b);
    } else if a.len() > 0 && b.len() > 0 && a[0] == b[0] {
        lemma_lex_lt_total(a.skip(1), b.skip(1));
        if !lex_lt(a, b) && !lex_lt(b, a) {
            assert(a.skip(1) == b.skip(1));
            assert(a =~= b) by {
                assert(forall|i: int| 1 <= i < a.len() ==> a[i] == a.skip(1)[i - 1] && b[i] == b.skip(1)[i - 1]);
            }
        }
    } else if a.len() > 0 && b.len() > 0 {
        if (a[0] as u32) == (b[0] as u32) {
            vstd::utf8::char_u32_cast(a[0], a[0] as u32);
            vstd::utf8::char_u32_cast(b[0], b[0] as u32);
        }
    }
}

/// The order is transitive.
pub proof fn lemma_lex_lt_trans(a: Seq<char>, b: Seq<char>, c: Seq<char>)
    requires
        lex_lt(a, b),
        lex_lt(b, c),
    ensures
        lex_lt(a, c),
    decreases a.len(),
{
    if a.len() > 0 && b.len() > 0 && c.len() > 0 && a[0] == b[0] && b[0] == c[0] {
        lemma_lex_lt_trans(a.skip(1), b.skip(1), c.skip(1));
    }
}

/// The order is asymmetric.
pub proof fn lemma_lex_lt_asym(a: Seq<char>, b: Seq<char>)
    requires
        lex_lt(a, b),
    ensures
        !lex_lt(b, a),
{
    if lex_lt(b, a) {
        lemma_lex_lt_trans(a, b, a);
        lemma_lex_lt_irrefl(a);
    }
}

/// Decides the lexicographic order on two string slices.
pub fn str_lex_lt(a: &str, b: &str) -> (r: bool)
    ensures
        r == lex_lt(a@, b@),
{
    let alen = a.unicode_len();
    let blen = b.unicode_len();
    let mut i: usize = 0;
    proof {
        assert(a@.skip(0) =~= a@);
        assert(b@.skip(0) =~= b@);
    }
    loop
        invariant
            i <= alen,
            i <= blen,
            alen == a@.len(),
            blen == b@.len(),
            lex_lt(a@, b@) == lex_lt(a@.skip(i as int), b@.skip(i as int)),
        decreases alen - i,
    {
        if i == blen {
            return false;
        }
        if i == alen {
            return true;
        }
        let ca = a.get_char(i);
        let cb = b.get_char(i);
        if (ca as u32) < (cb as u32) {
            return true;
        }
        if ca != cb {
            return false;
        }
        proof {
            assert(a@.skip(i as int).skip(1) =~= a@.skip(i as int + 1));
            assert(b@.skip(i as int).skip(1) =~= b@.skip(i as int + 1));
        }
        i = i + 1;
    }
}

} // verus!

verus! {

// ---------------------------------------------------------------------------
// The key-sorted association list behind the files object
// ---------------------------------------------------------------------------

/// Inserts a key/value pair into a key-sorted association list, keeping
/// the order and overwriting the value when the key is already present.
pub open spec fn insert_pair(
    ps: Seq<(Seq<char>, Seq<char>)>,
    k: Seq<char>,
    v: Seq<char>,
) -> Seq<(Seq<char>, Seq<char>)>
    decreases ps.len(),
{
    if ps.len() == 0 {
        seq![(k, v)]
    } else if lex_lt(k, ps[0].0) {
        seq![(k, v)] + ps
    } else if k == ps[0].0 {
        seq![(k, v)] + ps.skip(1)
    } else {
        seq![ps[0]] + insert_pair(ps.skip(1), k, v)
    }
}

/// The keys appear in strictly ascending lexicographic order, so each key
/// appears at most once.
pub open spec fn sorted_keys(ps: Seq<(Seq<char>, Seq<char>)>) -> bool {
    forall|i: int, j: int| 0 <= i < j < ps.len() ==> lex_lt(ps[i].0, ps[j].0)
}

/// Insertion keeps the list sorted, and every element of the result is
/// either the inserted pair or one of the original pairs.
pub proof fn lemma_insert_pair_sorted(ps: Seq<(Seq<char>, Seq<char>)>, k: Seq<char>, v: Seq<char>)
    requires
        sorted_keys(ps),
    ensures
        sorted_keys(insert_pair(ps, k, v)),
        forall|i: int|
            0 <= i < insert_pair(ps, k, v).len() ==> insert_pair(ps, k, v)[i] == (k, v)
                || ps.contains(#[trigger] insert_pair(ps, k, v)[i]),
    decreases ps.len(),
{
    let r = insert_pair(ps, k, v);
    if ps.len() == 0 {
        assert(r =~= seq![(k, v)]);
    } else if lex_lt(k, ps[0].0) {
        assert forall|i: int, j: int| 0 <= i < j < r.len() implies lex_lt(r[i].0, r[j].0) by {
            if i == 0 {
                if j > 1 {
                    lemma_lex_lt_trans(k, ps[0].0, ps[j - 1].0);
                }
            }
        }
        assert forall|i: int| 1 <= i < r.len() implies ps.contains(r[i]) by {
            assert(r[i] == ps[i - 1]);
        }
    } else if k == ps[0].0 {
        assert forall|i: int, j: int| 0 <= i < j < r.len() implies lex_lt(r[i].0, r[j].0) by {
            if i == 0 {
                assert(r[j] == ps.skip(1)[j - 1]);
                assert(ps.skip(1)[j - 1] == ps[j]);
            }
        }
        assert forall|i: int| 1 <= i < r.len() implies ps.contains(r[i]) by {
            assert(r[i] == ps.skip(1)[i - 1]);
            assert(ps.skip(1)[i - 1] == ps[i]);
        }
    } else {
        lemma_lex_lt_total(k, ps[0].0);
        lemma_lex_lt_irrefl(k);
        assert(lex_lt(ps[0].0, k));
        assert(sorted_keys(ps.skip(1))) by {
            assert(forall|i: int, j: int|
                0 <= i < j < ps.skip(1).len() ==> ps.skip(1)[i] == ps[i + 1] && ps.skip(1)[j]
                    == ps[j + 1]);
        }
        lemma_insert_pair_sorted(ps.skip(1), k, v);
        let rest = insert_pair(ps.skip(1), k, v);
        assert forall|i: int, j: int| 0 <= i < j < r.len() implies lex_lt(r[i].0, r[j].0) by {
            if i == 0 {
                assert(r[j] == rest[j - 1]);
                if rest[j - 1] == (k, v) {
                    assert(lex_lt(ps[0].0, k));
                } else {
                    let m = choose|m: int| 0 <= m < ps.skip(1).len() && ps.skip(1)[m] == rest[j - 1];
                    assert(ps.skip(1)[m] == ps[m + 1]);
                    assert(lex_lt(ps[0].0, ps[m + 1].0));
                }
            } else {
                assert(r[i] == rest[i - 1] && r[j] == rest[j - 1]);
            }
        }
        assert forall|i: int|
            0 <= i < r.len() && r[i] != (k, v) implies ps.contains(r[i]) by {
            if i == 0 {
                assert(r[0] == ps[0]);
            } else {
                assert(r[i] == rest[i - 1]);
                if rest[i - 1] != (k, v) {
                    let m = choose|m: int| 0 <= m < ps.skip(1).len() && ps.skip(1)[m] == rest[i - 1];
                    assert(ps[m + 1] == r[i]);
                }
            }
        }
    }
}

} // verus!

verus! {

/// In a key-sorted list every key appears at most once: the keys at two
/// different positions always differ.
pub proof fn lemma_sorted_keys_distinct(ps: Seq<(Seq<char>, Seq<char>)>)
    requires
        sorted_keys(ps),
    ensures
        forall|i: int, j: int| 0 <= i < j < ps.len() ==> ps[i].0 != ps[j].0,
{
    assert forall|i: int, j: int| 0 <= i < j < ps.len() implies ps[i].0 != ps[j].0 by {
        lemma_lex_lt_irrefl(ps[i].0);
    }
}

/// Inserting under a key and then inserting under the same key again
/// leaves only the later value: the earlier insertion is overwritten.
pub proof fn lemma_insert_pair_overwrites(
    ps: Seq<(Seq<char>, Seq<char>)>,
    k: Seq<char>,
    v1: Seq<char>,
    v2: Seq<char>,
)
    ensures
        insert_pair(insert_pair(ps, k, v1), k, v2) == insert_pair(ps, k, v2),
    decreases ps.len(),
{
    lemma_lex_lt_irrefl(k);
    if ps.len() == 0 {
        let r1 = insert_pair(ps, k, v1);
        assert(r1 =~= seq![(k, v1)]);
        assert(insert_pair(r1, k, v2) =~= seq![(k, v2)] + r1.skip(1));
        assert(insert_pair(r1, k, v2) =~= seq![(k, v2)]);
        assert(insert_pair(ps, k, v2) =~= seq![(k, v2)]);
    } else if lex_lt(k, ps[0].0) {
        let r1 = seq![(k, v1)] + ps;
        assert(insert_pair(ps, k, v1) == r1);
        assert(r1[0] == (k, v1));
        assert(insert_pair(r1, k, v2) == seq![(k, v2)] + r1.skip(1));
        assert(r1.skip(1) =~= ps);
        assert(insert_pair(ps, k, v2) == seq![(k, v2)] + ps);
    } else if k == ps[0].0 {
        let r1 = seq![(k, v1)] + ps.skip(1);
        assert(insert_pair(ps, k, v1) == r1);
        assert(r1[0] == (k, v1));
        assert(insert_pair(r1, k, v2) == seq![(k, v2)] + r1.skip(1));
        assert(r1.skip(1) =~= ps.skip(1));
        assert(insert_pair(ps, k, v2) == seq![(k, v2)] + ps.skip(1));
    } else {
        let r1 = seq![ps[0]] + insert_pair(ps.skip(1), k, v1);
        assert(insert_pair(ps, k, v1) == r1);
        assert(r1[0] == ps[0]);
        assert(insert_pair(r1, k, v2) == seq![ps[0]] + insert_pair(r1.skip(1), k, v2));
        assert(r1.skip(1) =~= insert_pair(ps.skip(1), k, v1));
        lemma_insert_pair_overwrites(ps.skip(1), k, v1, v2);
        assert(insert_pair(ps, k, v2) == seq![ps[0]] + insert_pair(ps.skip(1), k, v2));
    }
}

/// When the first `i` keys of a sorted list are all below the new key,
/// insertion leaves that prefix in place and works on the rest.
pub proof fn lemma_insert_pair_prefix(
    ps: Seq<(Seq<char>, Seq<char>)>,
    k: Seq<char>,
    v: Seq<char>,
    i: int,
)
    requires
        0 <= i <= ps.len(),
        forall|j: int| 0 <= j < i ==> lex_lt(#[trigger] ps[j].0, k),
    ensures
        insert_pair(ps, k, v) == ps.subrange(0, i) + insert_pair(ps.skip(i), k, v),
    decreases i,
{
    if i == 0 {
        assert(ps.skip(0) =~= ps);
        assert(ps.subrange(0, 0) =~= Seq::<(Seq<char>, Seq<char>)>::empty());
        assert(ps.subrange(0, 0) + insert_pair(ps, k, v) =~= insert_pair(ps, k, v));
    } else {
        assert(lex_lt(ps[0].0, k));
        lemma_lex_lt_asym(ps[0].0, k);
        lemma_lex_lt_irrefl(k);
        assert(k != ps[0].0);
        assert(insert_pair(ps, k, v) == seq![ps[0]] + insert_pair(ps.skip(1), k, v));
        assert(forall|j: int| 0 <= j < i - 1 ==> lex_lt(#[trigger] ps.skip(1)[j].0, k));
        lemma_insert_pair_prefix(ps.skip(1), k, v, i - 1);
        assert(ps.skip(1).subrange(0, i - 1) =~= ps.subrange(1, i));
        assert(ps.skip(1).skip(i - 1) =~= ps.skip(i));
        assert(seq![ps[0]] + (ps.subrange(1, i) + insert_pair(ps.skip(i), k, v)) =~= ps.subrange(
            0,
            i,
        ) + insert_pair(ps.skip(i), k, v));
    }
}

/// The sorted association list of a sequence of files, taken as
/// (name, contents) views: each file's final path segment is its key, and
/// a later file overwrites an earlier one with the same key.
pub open spec fn build_pairs(files: Seq<(Seq<char>, Seq<char>)>) -> Seq<(Seq<char>, Seq<char>)>
    decreases files.len(),
{
    if files.len() == 0 {
        Seq::empty()
    } else {
        insert_pair(build_pairs(files.drop_last()), basename(files.last().0), files.last().1)
    }
}

/// The association list built from any file sequence is key-sorted, so
/// the serialized files object never repeats a key.
pub proof fn lemma_build_pairs_sorted(files: Seq<(Seq<char>, Seq<char>)>)
    ensures
        sorted_keys(build_pairs(files)),
    decreases files.len(),
{
    if files.len() > 0 {
        lemma_build_pairs_sorted(files.drop_last());
        lemma_insert_pair_sorted(
            build_pairs(files.drop_last()),
            basename(files.last().0),
            files.last().1,
        );
    }
}

/// Serialization is deterministic under name collisions: when two files
/// resolve to the same final path segment, the later-added one decides the
/// content under that key, exactly as if the earlier one had never been
/// added.
pub proof fn lemma_last_write_wins(
    files: Seq<(Seq<char>, Seq<char>)>,
    f1: (Seq<char>, Seq<char>),
    f2: (Seq<char>, Seq<char>),
)
    requires
        basename(f1.0) == basename(f2.0),
    ensures
        build_pairs(files.push(f1).push(f2)) == build_pairs(files.push(f2)),
{
    let l2 = files.push(f1).push(f2);
    assert(l2.last() == f2);
    assert(l2.drop_last() =~= files.push(f1));
    assert(build_pairs(l2) == insert_pair(build_pairs(files.push(f1)), basename(f2.0), f2.1));
    assert(files.push(f1).last() == f1);
    assert(files.push(f1).drop_last() =~= files);
    assert(build_pairs(files.push(f1)) == insert_pair(build_pairs(files), basename(f1.0), f1.1));
    lemma_insert_pair_overwrites(build_pairs(files), basename(f2.0), f1.1, f2.1);
    assert(insert_pair(build_pairs(files), basename(f1.0), f1.1) == insert_pair(
        build_pairs(files),
        basename(f2.0),
        f1.1,
    ));
    assert(files.push(f2).last() == f2);
    assert(files.push(f2).drop_last() =~= files);
    assert(build_pairs(files.push(f2)) == insert_pair(build_pairs(files), basename(f2.0), f2.1));
}

/// The (name, contents) views of a sequence of string pairs.
pub open spec fn pairs_view(ps: Seq<(String, String)>) -> Seq<(Seq<char>, Seq<char>)> {
    ps.map_values(|p: (String, String)| (p.0@, p.1@))
}

/// Inserts a key/value pair into a vector kept in ascending key order,
/// overwriting the value when the key is already present.
pub fn insert_file_pair(pairs: &mut Vec<(String, String)>, k: String, v: String)
    ensures
        pairs_view(final(pairs)@) == insert_pair(pairs_view(old(pairs)@), k@, v@),
{
    let ghost ps = pairs_view(old(pairs)@);
    let mut i: usize = 0;
    loop
        invariant
            i <= pairs.len(),
            pairs@ == old(pairs)@,
            ps == pairs_view(pairs@),
            forall|j: int| 0 <= j < i ==> lex_lt(#[trigger] ps[j].0, k@),
        decreases pairs.len() - i,
    {
        if i == pairs.len() {
            proof {
                lemma_insert_pair_prefix(ps, k@, v@, i as int);
                assert(ps.skip(i as int) =~= Seq::<(Seq<char>, Seq<char>)>::empty());
                assert(ps.subrange(0, i as int) =~= ps);
            }
            pairs.push((k, v));
            proof {
                assert(pairs_view(pairs@) =~= ps + seq![(k@, v@)]);
                assert(insert_pair(Seq::<(Seq<char>, Seq<char>)>::empty(), k@, v@) =~= seq![
                    (k@, v@),
                ]);
            }
            return;
        }
        if str_lex_lt(k.as_str(), pairs[i].0.as_str()) {
            proof {
                lemma_insert_pair_prefix(ps, k@, v@, i as int);
                assert(ps.skip(i as int)[0] == ps[i as int]);
            }
            pairs.insert(i, (k, v));
            proof {
                assert(insert_pair(ps.skip(i as int), k@, v@) == seq![(k@, v@)] + ps.skip(i as int));
                assert(pairs_view(pairs@) =~= ps.subrange(0, i as int) + (seq![(k@, v@)] + ps.skip(
                    i as int,
                )));
            }
            return;
        }
        if pairs[i].0 == k {
            proof {
                lemma_insert_pair_prefix(ps, k@, v@, i as int);
                assert(ps.skip(i as int)[0] == ps[i as int]);
                assert(!lex_lt(k@, ps[i as int].0));
                assert(insert_pair(ps.skip(i as int), k@, v@) == seq![(k@, v@)] + ps.skip(
                    i as int,
                ).skip(1));
            }
            pairs[i] = (k, v);
            proof {
                assert(ps.skip(i as int).skip(1) =~= ps.skip(i as int + 1));
                assert(pairs_view(pairs@) =~= ps.subrange(0, i as int) + (seq![(k@, v@)] + ps.skip(
                    i as int + 1,
                )));
            }
            return;
        }
        proof {
            lemma_lex_lt_total(k@, ps[i as int].0);
        }
        i = i + 1;
    }
}

} // verus!

verus! {

// ---------------------------------------------------------------------------
// Emission
// ---------------------------------------------------------------------------

/// Relies on String::push: appends the given character to the end of the
/// string.
#[verifier::external_body]
fn push_char(out: &mut String, c: char)
    ensures
        final(out)@ == old(out)@.push(c),
{
    out.push(c);
}

/// The lower-case hexadecimal digit character for a nibble.
fn hex_char(n: u32) -> (r: char)
    requires
        n < 16,
    ensures
        r == hex_digit(n as int),
{
    if n == 0 { '0' }
    else if n == 1 { '1' }
    else if n == 2 { '2' }
    else if n == 3 { '3' }
    else if n == 4 { '4' }
    else if n == 5 { '5' }
    else if n == 6 { '6' }
    else if n == 7 { '7' }
    else if n == 8 { '8' }
    else if n == 9 { '9' }
    else if n == 10 { 'a' }
    else if n == 11 { 'b' }
    else if n == 12 { 'c' }
    else if n == 13 { 'd' }
    else if n == 14 { 'e' }
    else { 'f' }
}

/// Appends the escape of one character to the output.
fn push_escaped(out: &mut String, c: char)
    ensures
        final(out)@ == old(out)@ + escape_char(c),
{
    if c == '"' {
        push_char(out, '\\');
        push_char(out, '"');
        assert(out@ =~= old(out)@ + escape_char(c));
    } else if c == '\\' {
        push_char(out, '\\');
        push_char(out, '\\');
        assert(out@ =~= old(out)@ + escape_char(c));
    } else if c == '\u{8}' {
        push_char(out, '\\');
        push_char(out, 'b');
        assert(out@ =~= old(out)@ + escape_char(c));
    } else if c == '\t' {
        push_char(out, '\\');
        push_char(out, 't');
        assert(out@ =~= old(out)@ + escape_char(c));
    } else if c == '\n' {
        push_char(out, '\\');
        push_char(out, 'n');
        assert(out@ =~= old(out)@ + escape_char(c));
    } else if c == '\u{c}' {
        push_char(out, '\\');
        push_char(out, 'f');
        assert(out@ =~= old(out)@ + escape_char(c));
    } else if c == '\r' {
        push_char(out, '\\');
        push_char(out, 'r');
        assert(out@ =~= old(out)@ + escape_char(c));
    } else if (c as u32) < 0x20 || c == '\u{7f}' {
        let u: u32 = c as u32;
        push_char(out, '\\');
        push_char(out, 'u');
        push_char(out, '0');
        push_char(out, '0');
        push_char(out, hex_char(u / 16));
        push_char(out, hex_char(u % 16));
        assert(out@ =~= old(out)@ + escape_char(c));
    } else {
        push_char(out, c);
        assert(out@ =~= old(out)@ + escape_char(c));
    }
}

/// Appends the complete JSON string form of `s`, quotes included.
pub fn append_json_string(out: &mut String, s: &str)
    ensures
        final(out)@ == old(out)@ + json_string(s@),
{
    let ghost base = old(out)@;
    push_char(out, '"');
    let n = s.unicode_len();
    let mut i: usize = 0;
    proof {
        assert(s@.subrange(0, 0) =~= Seq::<char>::empty());
        assert(out@ =~= base + seq!['"'] + escape_string(s@.subrange(0, 0)));
    }
    while i < n
        invariant
            i <= n,
            n == s@.len(),
            out@ == base + seq!['"'] + escape_string(s@.subrange(0, i as int)),
        decreases n - i,
    {
        let c = s.get_char(i);
        push_escaped(out, c);
        proof {
            lemma_escape_string_push(s@.subrange(0, i as int), c);
            assert(s@.subrange(0, i as int + 1) =~= s@.subrange(0, i as int).push(c));
            assert(out@ =~= base + seq!['"'] + escape_string(s@.subrange(0, i as int + 1)));
        }
        i = i + 1;
    }
    push_char(out, '"');
    proof {
        assert(s@.subrange(0, n as int) =~= s@);
        assert(out@ =~= base + json_string(s@));
    }
}

/// The serialized form of one file's value object.
pub open spec fn file_json(contents: Seq<char>) -> Seq<char> {
    "{\"content\":"@ + json_string(contents) + "}"@
}

/// The serialized form of one files-object entry.
pub open spec fn entry_json(p: (Seq<char>, Seq<char>)) -> Seq<char> {
    json_string(p.0) + ":"@ + file_json(p.1)
}

/// The serialized body of the files object: its entries in order,
/// separated by commas.
pub open spec fn entries_json(ps: Seq<(Seq<char>, Seq<char>)>) -> Seq<char>
    decreases ps.len(),
{
    if ps.len() == 0 {
        Seq::empty()
    } else if ps.len() == 1 {
        entry_json(ps[0])
    } else {
        entry_json(ps[0]) + ","@ + entries_json(ps.skip(1))
    }
}

/// Entries are emitted left to right: one more pair appends one more
/// entry, preceded by a comma unless it is the first.
pub proof fn lemma_entries_json_push(ps: Seq<(Seq<char>, Seq<char>)>, p: (Seq<char>, Seq<char>))
    ensures
        ps.len() == 0 ==> entries_json(ps.push(p)) == entry_json(p),
        ps.len() > 0 ==> entries_json(ps.push(p)) == entries_json(ps) + ","@ + entry_json(p),
    decreases ps.len(),
{
    let l = ps.push(p);
    if ps.len() == 0 {
        assert(l[0] == p);
        assert(entries_json(l) == entry_json(p));
    } else if ps.len() == 1 {
        assert(l[0] == ps[0]);
        assert(l.skip(1) =~= seq![p]);
        assert(entries_json(l.skip(1)) == entry_json(p));
        assert(entries_json(ps) == entry_json(ps[0]));
    } else {
        assert(l[0] == ps[0]);
        assert(l.skip(1) =~= ps.skip(1).push(p));
        lemma_entries_json_push(ps.skip(1), p);
        assert(entries_json(l) == entry_json(ps[0]) + ","@ + entries_json(ps.skip(1).push(p)));
        assert(entry_json(ps[0]) + ","@ + (entries_json(ps.skip(1)) + ","@ + entry_json(p)) =~= (
        entry_json(ps[0]) + ","@ + entries_json(ps.skip(1))) + ","@ + entry_json(p));
    }
}

/// Appends one files-object entry: the key as a JSON string, a colon, and
/// the value object.
pub fn append_entry(out: &mut String, k: &str, v: &str)
    ensures
        final(out)@ == old(out)@ + entry_json((k@, v@)),
{
    let ghost base = old(out)@;
    append_json_string(out, k);
    out.append(":");
    out.append("{\"content\":");
    append_json_string(out, v);
    out.append("}");
    proof {
        assert(out@ =~= base + entry_json((k@, v@)));
    }
}

} // verus!

verus! {

/// The inserted pair is present in the result of an insertion.
pub proof fn lemma_insert_pair_contains(
    ps: Seq<(Seq<char>, Seq<char>)>,
    k: Seq<char>,
    v: Seq<char>,
)
    ensures
        insert_pair(ps, k, v).contains((k, v)),
    decreases ps.len(),
{
    let r = insert_pair(ps, k, v);
    if ps.len() == 0 || lex_lt(k, ps[0].0) || k == ps[0].0 {
        assert(r[0] == (k, v));
    } else {
        lemma_insert_pair_contains(ps.skip(1), k, v);
        let rest = insert_pair(ps.skip(1), k, v);
        let m = choose|m: int| 0 <= m < rest.len() && rest[m] == (k, v);
        assert(r[m + 1] == (k, v));
    }
}

} // verus!

verus! {

// ---------------------------------------------------------------------------
// The files object as a map: determinism of serialization
// ---------------------------------------------------------------------------

/// The map an association list stands for: each key maps to the value of
/// its earliest pair. On a key-sorted list keys are distinct, so this is
/// simply the pair at each key.
pub open spec fn pairs_map(ps: Seq<(Seq<char>, Seq<char>)>) -> Map<Seq<char>, Seq<char>>
    decreases ps.len(),
{
    if ps.len() == 0 {
        Map::empty()
    } else {
        pairs_map(ps.skip(1)).insert(ps[0].0, ps[0].1)
    }
}

/// The final-segment map of a file sequence: each file's final path
/// segment maps to the contents of the last file carrying that segment.
pub open spec fn file_map(files: Seq<(Seq<char>, Seq<char>)>) -> Map<Seq<char>, Seq<char>>
    decreases files.len(),
{
    if files.len() == 0 {
        Map::empty()
    } else {
        file_map(files.drop_last()).insert(basename(files.last().0), files.last().1)
    }
}

/// Insertion into the association list is insertion into its map.
proof fn lemma_insert_pair_map(ps: Seq<(Seq<char>, Seq<char>)>, k: Seq<char>, v: Seq<char>)
    ensures
        pairs_map(insert_pair(ps, k, v)) == pairs_map(ps).insert(k, v),
    decreases ps.len(),
{
    let r = insert_pair(ps, k, v);
    if ps.len() == 0 {
        assert(r[0] == (k, v));
        assert(r.skip(1) =~= Seq::<(Seq<char>, Seq<char>)>::empty());
        assert(pairs_map(r.skip(1)) == Map::<Seq<char>, Seq<char>>::empty());
        assert(pairs_map(r) == Map::<Seq<char>, Seq<char>>::empty().insert(k, v));
        assert(pairs_map(ps) == Map::<Seq<char>, Seq<char>>::empty());
    } else if lex_lt(k, ps[0].0) {
        assert(r[0] == (k, v));
        assert(r.skip(1) =~= ps);
        assert(pairs_map(r) == pairs_map(ps).insert(k, v));
    } else if k == ps[0].0 {
        assert(r[0] == (k, v));
        assert(r.skip(1) =~= ps.skip(1));
        assert(pairs_map(ps).insert(k, v) =~= pairs_map(ps.skip(1)).insert(k, v));
        assert(pairs_map(r) == pairs_map(ps.skip(1)).insert(k, v));
    } else {
        assert(r[0] == ps[0]);
        assert(r.skip(1) =~= insert_pair(ps.skip(1), k, v));
        lemma_insert_pair_map(ps.skip(1), k, v);
        assert(pairs_map(r) == pairs_map(ps.skip(1)).insert(k, v).insert(ps[0].0, ps[0].1));
        assert(pairs_map(ps.skip(1)).insert(k, v).insert(ps[0].0, ps[0].1) =~= pairs_map(
            ps.skip(1),
        ).insert(ps[0].0, ps[0].1).insert(k, v));
    }
}

/// The association list built from a file sequence realizes exactly the
/// final-segment map of those files.
pub proof fn lemma_build_pairs_map(files: Seq<(Seq<char>, Seq<char>)>)
    ensures
        pairs_map(build_pairs(files)) == file_map(files),
    decreases files.len(),
{
    if files.len() > 0 {
        lemma_build_pairs_map(files.drop_last());
        lemma_insert_pair_map(
            build_pairs(files.drop_last()),
            basename(files.last().0),
            files.last().1,
        );
    }
}

/// A key stands in the map of an association list exactly when some pair
/// carries it.
proof fn lemma_pairs_map_dom(ps: Seq<(Seq<char>, Seq<char>)>)
    ensures
        forall|k: Seq<char>|
            pairs_map(ps).dom().contains(k) <==> exists|i: int| 0 <= i < ps.len() && ps[i].0 == k,
    decreases ps.len(),
{
    if ps.len() == 0 {
        assert(pairs_map(ps) == Map::<Seq<char>, Seq<char>>::empty());
    } else {
        lemma_pairs_map_dom(ps.skip(1));
        assert forall|k: Seq<char>| pairs_map(ps).dom().contains(k) implies exists|i: int|
            0 <= i < ps.len() && ps[i].0 == k by {
            if k == ps[0].0 {
                assert(0 <= 0 < ps.len() && ps[0].0 == k);
            } else {
                assert(pairs_map(ps.skip(1)).dom().contains(k));
                let i = choose|i: int| 0 <= i < ps.skip(1).len() && ps.skip(1)[i].0 == k;
                assert(0 <= i + 1 < ps.len() && ps[i + 1].0 == k);
            }
        }
        assert forall|k: Seq<char>| (exists|i: int| 0 <= i < ps.len() && ps[i].0 == k) implies
            pairs_map(ps).dom().contains(k) by {
            let i = choose|i: int| 0 <= i < ps.len() && ps[i].0 == k;
            if i > 0 {
                assert(0 <= i - 1 < ps.skip(1).len() && ps.skip(1)[i - 1].0 == k);
                assert(pairs_map(ps.skip(1)).dom().contains(k));
            }
        }
    }
}

/// Two key-sorted association lists that stand for the same map are the
/// same list.
proof fn lemma_sorted_canonical(p: Seq<(Seq<char>, Seq<char>)>, q: Seq<(Seq<char>, Seq<char>)>)
    requires
        sorted_keys(p),
        sorted_keys(q),
        pairs_map(p) == pairs_map(q),
    ensures
        p == q,
    decreases p.len(),
{
    lemma_pairs_map_dom(p);
    lemma_pairs_map_dom(q);
    if p.len() == 0 && q.len() == 0 {
        assert(p =~= q);
    } else if p.len() == 0 {
        assert(0 <= 0 < q.len() && q[0].0 == q[0].0);
        assert(pairs_map(q).dom().contains(q[0].0));
        assert(false);
    } else if q.len() == 0 {
        assert(0 <= 0 < p.len() && p[0].0 == p[0].0);
        assert(pairs_map(p).dom().contains(p[0].0));
        assert(false);
    } else {
        assert(0 <= 0 < q.len() && q[0].0 == q[0].0);
        assert(pairs_map(q).dom().contains(q[0].0));
        let i = choose|i: int| 0 <= i < p.len() && p[i].0 == q[0].0;
        assert(0 <= 0 < p.len() && p[0].0 == p[0].0);
        assert(pairs_map(p).dom().contains(p[0].0));
        let j = choose|j: int| 0 <= j < q.len() && q[j].0 == p[0].0;
        assert(p[0].0 == q[0].0) by {
            if p[0].0 != q[0].0 {
                assert(i != 0 && j != 0);
                assert(lex_lt(p[0].0, p[i].0));
                assert(lex_lt(q[0].0, q[j].0));
                lemma_lex_lt_asym(p[0].0, q[0].0);
            }
        }
        assert(pairs_map(p)[p[0].0] == p[0].1);
        assert(pairs_map(q)[q[0].0] == q[0].1);
        assert(p[0].1 == q[0].1);
        lemma_pairs_map_dom(p.skip(1));
        lemma_pairs_map_dom(q.skip(1));
        assert(!pairs_map(p.skip(1)).dom().contains(p[0].0)) by {
            if pairs_map(p.skip(1)).dom().contains(p[0].0) {
                let m = choose|m: int| 0 <= m < p.skip(1).len() && p.skip(1)[m].0 == p[0].0;
                assert(p[m + 1].0 == p[0].0);
                assert(lex_lt(p[0].0, p[m + 1].0));
                lemma_lex_lt_irrefl(p[0].0);
            }
        }
        assert(!pairs_map(q.skip(1)).dom().contains(q[0].0)) by {
            if pairs_map(q.skip(1)).dom().contains(q[0].0) {
                let m = choose|m: int| 0 <= m < q.skip(1).len() && q.skip(1)[m].0 == q[0].0;
                assert(q[m + 1].0 == q[0].0);
                assert(lex_lt(q[0].0, q[m + 1].0));
                lemma_lex_lt_irrefl(q[0].0);
            }
        }
        assert(pairs_map(p.skip(1)) =~= pairs_map(p).remove(p[0].0));
        assert(pairs_map(q.skip(1)) =~= pairs_map(q).remove(q[0].0));
        assert(sorted_keys(p.skip(1))) by {
            assert(forall|m: int, n: int|
                0 <= m < n < p.skip(1).len() ==> p.skip(1)[m] == p[m + 1] && p.skip(1)[n] == p[n
                    + 1]);
        }
        assert(sorted_keys(q.skip(1))) by {
            assert(forall|m: int, n: int|
                0 <= m < n < q.skip(1).len() ==> q.skip(1)[m] == q[m + 1] && q.skip(1)[n] == q[n
                    + 1]);
        }
        lemma_sorted_canonical(p.skip(1), q.skip(1));
        assert(p =~= q) by {
            assert(p[0] =~= q[0]);
            assert(forall|n: int|
                1 <= n < p.len() ==> p[n] == p.skip(1)[n - 1] && q[n] == q.skip(1)[n - 1]);
        }
    }
}

/// Serialization is a function of the final-segment map alone: two file
/// sequences with the same map build the same sorted pairs, whatever
/// their order, their directory prefixes, or their overwritten entries.
pub proof fn lemma_build_pairs_from_map(
    fs1: Seq<(Seq<char>, Seq<char>)>,
    fs2: Seq<(Seq<char>, Seq<char>)>,
)
    requires
        file_map(fs1) == file_map(fs2),
    ensures
        build_pairs(fs1) == build_pairs(fs2),
{
    lemma_build_pairs_map(fs1);
    lemma_build_pairs_map(fs2);
    lemma_build_pairs_sorted(fs1);
    lemma_build_pairs_sorted(fs2);
    lemma_sorted_canonical(build_pairs(fs1), build_pairs(fs2));
}

} // verus!
