//! Operations on path strings: ASCII case folding, extraction of the
//! extension (the suffix after the final `.` of the final `/`-separated
//! component), and replacement of an extension, as the scan and fix-up steps
//! need them.

use vstd::prelude::*;

verus! {

/// ASCII case folding of one character: `'A'..='Z'` map to `'a'..='z'`,
/// every other character is unchanged.
pub open spec fn lower_char(c: char) -> char {
    if 'A' <= c && c <= 'Z' {
        ((c as u8) + 32) as char
    } else {
        c
    }
}

/// ASCII case folding of a character sequence.
pub open spec fn lower(s: Seq<char>) -> Seq<char> {
    s.map_values(|c: char| lower_char(c))
}

/// Two character sequences are equal up to ASCII case.
pub open spec fn eq_ignore_case(a: Seq<char>, b: Seq<char>) -> bool {
    lower(a) == lower(b)
}

/// The index of the last occurrence of `c` in `s`, or `-1` if `s` does not
/// contain `c`.
pub open spec fn last_index_of(s: Seq<char>, c: char) -> int
    decreases s.len(),
{
    if s.len() == 0 {
        -1
    } else if s[s.len() - 1] == c {
        s.len() - 1
    } else {
        last_index_of(s.drop_last(), c)
    }
}

/// What the last index means: it is in range, it holds `c`, and nothing
/// after it does.
pub proof fn lemma_last_index_of(s: Seq<char>, c: char)
    ensures
        -1 <= last_index_of(s, c) < s.len(),
        last_index_of(s, c) >= 0 ==> s[last_index_of(s, c)] == c,
        forall|j: int| last_index_of(s, c) < j < s.len() ==> s[j] != c,
    decreases s.len(),
{
    if s.len() > 0 && s[s.len() - 1] != c {
        lemma_last_index_of(s.drop_last(), c);
        assert(forall|j: int| 0 <= j < s.len() - 1 ==> s[j] == s.drop_last()[j]);
    }
}

/// The extension of a path: the part after the last `.` of the last
/// `/`-separated component, provided that dot is neither the component's
/// first character (a leading dot hides a file, it marks no extension) nor
/// absent. The extension of `"a/b.c"` is `Some("c")`, of `"a/.gitignore"`
/// and of `"a/b"` it is `None`, and of `"a/b."` it is the empty string.
pub open spec fn spec_extension(p: Seq<char>) -> Option<Seq<char>> {
    let slash = last_index_of(p, '/');
    let dot = last_index_of(p, '.');
    if dot > slash + 1 {
        Some(p.skip(dot + 1))
    } else {
        None
    }
}

/// `p` with its extension replaced by `ext`: the old extension (with its
/// dot) is cut off where there is one, and `.ext` is appended unless `ext`
/// is empty.
pub open spec fn spec_with_extension(p: Seq<char>, ext: Seq<char>) -> Seq<char> {
    let slash = last_index_of(p, '/');
    let dot = last_index_of(p, '.');
    let stem = if dot > slash + 1 {
        p.take(dot)
    } else {
        p
    };
    if ext.len() == 0 {
        stem
    } else {
        stem + seq!['.'] + ext
    }
}

/// The views of a sequence of strings.
pub open spec fn seq_views(v: Seq<String>) -> Seq<Seq<char>> {
    v.map_values(|s: String| s@)
}

/// `s` split at every occurrence of `sep`, the separators dropped. There is
/// always at least one piece; an empty input gives one empty piece, and
/// adjacent separators give empty pieces between them.
pub open spec fn split_seq(s: Seq<char>, sep: char) -> Seq<Seq<char>>
    decreases s.len(),
{
    if s.len() == 0 {
        seq![s]
    } else if s[0] == sep {
        seq![Seq::<char>::empty()] + split_seq(s.drop_first(), sep)
    } else {
        let r = split_seq(s.drop_first(), sep);
        seq![seq![s[0]] + r[0]] + r.drop_first()
    }
}

/// Splitting yields at least one piece.
pub proof fn lemma_split_len_pos(s: Seq<char>, sep: char)
    ensures
        split_seq(s, sep).len() >= 1,
    decreases s.len(),
{
    if s.len() > 0 {
        lemma_split_len_pos(s.drop_first(), sep);
    }
}

/// A sequence without the separator splits into itself alone.
pub proof fn lemma_split_no_sep(s: Seq<char>, sep: char)
    requires
        forall|j: int| 0 <= j < s.len() ==> s[j] != sep,
    ensures
        split_seq(s, sep) == seq![s],
    decreases s.len(),
{
    if s.len() > 0 {
        assert(s[0] != sep);
        assert(forall|j: int| 0 <= j < s.drop_first().len() ==> s.drop_first()[j] == s[j + 1]);
        lemma_split_no_sep(s.drop_first(), sep);
        lemma_split_len_pos(s.drop_first(), sep);
        assert(seq![s[0]] + s.drop_first() =~= s);
        assert(seq![seq![s[0]] + s.drop_first()] + seq![s.drop_first()].drop_first() =~= seq![s]);
    }
}

/// Splitting decomposes at the first separator.
pub proof fn lemma_split_at_first(s: Seq<char>, sep: char, k: int)
    requires
        0 <= k < s.len(),
        s[k] == sep,
        forall|j: int| 0 <= j < k ==> s[j] != sep,
    ensures
        split_seq(s, sep) == seq![s.take(k)] + split_seq(s.skip(k + 1), sep),
    decreases k,
{
    if k == 0 {
        assert(s.take(0) =~= Seq::<char>::empty());
        assert(s.skip(1) =~= s.drop_first());
        assert(split_seq(s, sep) =~= seq![s.take(0)] + split_seq(s.skip(1), sep));
    } else {
        let t = s.drop_first();
        assert(forall|j: int| 0 <= j < t.len() ==> t[j] == s[j + 1]);
        assert(t[k - 1] == sep);
        lemma_split_at_first(t, sep, k - 1);
        lemma_split_len_pos(t.skip(k), sep);
        let r = split_seq(t, sep);
        assert(r == seq![t.take(k - 1)] + split_seq(t.skip(k), sep));
        assert(r[0] == t.take(k - 1));
        assert(seq![s[0]] + t.take(k - 1) =~= s.take(k));
        assert(t.skip(k) =~= s.skip(k + 1));
        assert(r.drop_first() =~= split_seq(t.skip(k), sep));
        assert(seq![seq![s[0]] + r[0]] + r.drop_first() =~= seq![s.take(k)] + split_seq(s.skip(k + 1),
            sep));
    }
}

/// ASCII case folding of one character.
pub fn lower_char_exec(c: char) -> (r: char)
    ensures
        r == lower_char(c),
{
    if 'A' <= c && c <= 'Z' {
        ((c as u8) + 32) as char
    } else {
        c
    }
}

/// Whether two strings are equal up to ASCII case.
pub fn eq_ignore_ascii_case(a: &str, b: &str) -> (r: bool)
    ensures
        r == eq_ignore_case(a@, b@),
{
    let na = a.unicode_len();
    let nb = b.unicode_len();
    if na != nb {
        assert(lower(a@).len() != lower(b@).len());
        return false;
    }
    let mut i: usize = 0;
    while i < na
        invariant
            0 <= i <= na,
            na == a@.len(),
            na == b@.len(),
            forall|j: int| 0 <= j < i ==> lower_char(a@[j]) == lower_char(b@[j]),
        decreases na - i,
    {
        let ca = lower_char_exec(a.get_char(i));
        let cb = lower_char_exec(b.get_char(i));
        if ca != cb {
            assert(lower(a@)[i as int] != lower(b@)[i as int]);
            return false;
        }
        i += 1;
    }
    assert(lower(a@) =~= lower(b@));
    true
}

/// Whether folding `a` to lower case yields exactly `b`.
pub fn lowered_equals(a: &str, b: &str) -> (r: bool)
    ensures
        r == (lower(a@) == b@),
{
    let na = a.unicode_len();
    let nb = b.unicode_len();
    if na != nb {
        assert(lower(a@).len() != b@.len());
        return false;
    }
    let mut i: usize = 0;
    while i < na
        invariant
            0 <= i <= na,
            na == a@.len(),
            na == b@.len(),
            forall|j: int| 0 <= j < i ==> lower_char(a@[j]) == b@[j],
        decreases na - i,
    {
        let ca = lower_char_exec(a.get_char(i));
        let cb = b.get_char(i);
        if ca != cb {
            assert(lower(a@)[i as int] != b@[i as int]);
            return false;
        }
        i += 1;
    }
    assert(lower(a@) =~= b@);
    true
}

/// The index of the last occurrence of `c` in `s`, if any.
pub fn last_index(s: &str, c: char) -> (r: Option<usize>)
    ensures
        match r {
            Some(i) => i == last_index_of(s@, c),
            None => last_index_of(s@, c) == -1,
        },
{
    proof {
        lemma_last_index_of(s@, c);
    }
    let n = s.unicode_len();
    let mut i: usize = n;
    while i > 0
        invariant
            0 <= i <= n,
            n == s@.len(),
            forall|j: int| i <= j < n ==> s@[j] != c,
        decreases i,
    {
        i = i - 1;
        if s.get_char(i) == c {
            proof {
                lemma_last_index_of(s@, c);
                let l = last_index_of(s@, c);
                if l < i as int {
                    assert(s@[i as int] != c);
                } else if l > i as int {
                    assert(s@[l] != c);
                }
            }
            return Some(i);
        }
    }
    None
}

/// Whether two strings hold the same characters.
pub fn str_eq(a: &str, b: &str) -> (r: bool)
    ensures
        r == (a@ == b@),
{
    let na = a.unicode_len();
    let nb = b.unicode_len();
    if na != nb {
        return false;
    }
    let mut i: usize = 0;
    while i < na
        invariant
            0 <= i <= na,
            na == a@.len(),
            na == b@.len(),
            forall|j: int| 0 <= j < i ==> a@[j] == b@[j],
        decreases na - i,
    {
        if a.get_char(i) != b.get_char(i) {
            return false;
        }
        i += 1;
    }
    assert(a@ =~= b@);
    true
}

/// `s` split at every occurrence of `sep`, per `split_seq`.
pub fn split_char(s: &str, sep: char) -> (r: Vec<String>)
    ensures
        seq_views(r@) == split_seq(s@, sep),
        r@.len() >= 1,
{
    let n = s.unicode_len();
    let mut out: Vec<String> = Vec::new();
    let mut start: usize = 0;
    let mut i: usize = 0;
    proof {
        assert(s@.skip(0) =~= s@);
        assert(seq_views(out@) + split_seq(s@, sep) =~= split_seq(s@, sep));
    }
    while i < n
        invariant
            0 <= start <= i <= n,
            n == s@.len(),
            forall|j: int| start <= j < i ==> s@[j] != sep,
            split_seq(s@, sep) == seq_views(out@) + split_seq(s@.skip(start as int), sep),
        decreases n - i,
    {
        if s.get_char(i) == sep {
            let piece = String::from_str(s.substring_char(start, i));
            proof {
                let tail = s@.skip(start as int);
                assert(forall|j: int| 0 <= j < i - start ==> tail[j] == s@[j + start]);
                lemma_split_at_first(tail, sep, i - start);
                assert(tail.take(i - start) =~= piece@);
                assert(tail.skip(i - start + 1) =~= s@.skip(i + 1));
                assert(seq_views(out@.push(piece)) =~= seq_views(out@) + seq![piece@]);
                assert(seq_views(out@) + (seq![piece@] + split_seq(s@.skip(i + 1), sep))
                    =~= (seq_views(out@) + seq![piece@]) + split_seq(s@.skip(i + 1), sep));
            }
            out.push(piece);
            start = i + 1;
        }
        i += 1;
    }
    let piece = String::from_str(s.substring_char(start, n));
    proof {
        let tail = s@.skip(start as int);
        assert(forall|j: int| 0 <= j < tail.len() ==> tail[j] == s@[j + start]);
        lemma_split_no_sep(tail, sep);
        assert(tail =~= piece@);
        assert(seq_views(out@.push(piece)) =~= seq_views(out@) + seq![piece@]);
        assert(seq_views(out@) + seq![piece@] == split_seq(s@, sep));
    }
    out.push(piece);
    out
}

/// The extension of a path string, per `spec_extension`.
pub fn extension_of(p: &str) -> (r: Option<String>)
    ensures
        match r {
            Some(e) => spec_extension(p@) == Some(e@),
            None => spec_extension(p@) is None,
        },
{
    proof {
        lemma_last_index_of(p@, '/');
        lemma_last_index_of(p@, '.');
    }
    let n = p.unicode_len();
    let dot = match last_index(p, '.') {
        Some(d) => d,
        None => {
            return None;
        },
    };
    let keeps = match last_index(p, '/') {
        Some(s) => dot > s + 1,
        None => dot > 0,
    };
    if keeps {
        Some(String::from_str(p.substring_char(dot + 1, n)))
    } else {
        None
    }
}

/// `p` with its extension replaced by `ext`, per `spec_with_extension`.
pub fn with_extension(p: &str, ext: &str) -> (r: String)
    ensures
        r@ == spec_with_extension(p@, ext@),
{
    proof {
        lemma_last_index_of(p@, '/');
        lemma_last_index_of(p@, '.');
        reveal_strlit(".");
    }
    let n = p.unicode_len();
    let dot_start = match last_index(p, '.') {
        Some(d) => {
            match last_index(p, '/') {
                Some(s) => if d > s + 1 {
                    Some(d)
                } else {
                    None
                },
                None => if d > 0 {
                    Some(d)
                } else {
                    None
                },
            }
        },
        None => None,
    };
    let stem: &str = match dot_start {
        Some(d) => p.substring_char(0, d),
        None => p,
    };
    if ext.unicode_len() == 0 {
        String::from_str(stem)
    } else {
        let r = String::from_str(stem).concat(".").concat(ext);
        assert(r@ =~= spec_with_extension(p@, ext@));
        r
    }
}

} // verus!
