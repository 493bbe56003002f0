//! Paths as UTF-8 byte strings: file names, extensions, separators and the
//! numbered names tried when a destination is already taken.
//!
//! Every split happens at an ASCII byte (`/`, `\`, `.`), which in UTF-8 is
//! always a character boundary, so byte positions give the same pieces as
//! the character-level operations on `String`.

use vstd::prelude::*;

verus! {

/// ASCII `/`.
pub const SLASH: u8 = 47;
/// ASCII `\`.
pub const BACKSLASH: u8 = 92;
/// ASCII `.`.
pub const DOT: u8 = 46;

/// A path separator: `/` or `\`.
pub open spec fn is_separator(c: u8) -> bool {
    c == SLASH || c == BACKSLASH
}

/// Index of the last separator in `s`, or -1 when there is none.
pub open spec fn last_separator(s: Seq<u8>) -> int
    decreases s.len(),
{
    if s.len() == 0 {
        -1
    } else if is_separator(s.last()) {
        s.len() - 1
    } else {
        last_separator(s.drop_last())
    }
}

/// Index of the last occurrence of `c` in `s`, or -1 when there is none.
pub open spec fn last_index_of(s: Seq<u8>, c: u8) -> int
    decreases s.len(),
{
    if s.len() == 0 {
        -1
    } else if s.last() == c {
        s.len() - 1
    } else {
        last_index_of(s.drop_last(), c)
    }
}

/// The last component of `path`: what follows its last `/` or `\`, or the
/// whole path when it has neither.
pub open spec fn file_name(path: Seq<u8>) -> Seq<u8> {
    path.subrange(last_separator(path) + 1, path.len() as int)
}

/// `path` with every `\` replaced by `/`.
pub open spec fn forward_slashes(path: Seq<u8>) -> Seq<u8> {
    path.map_values(|c: u8| if c == BACKSLASH { SLASH } else { c })
}

/// The decimal digits of `n`, most significant first, without leading zeros.
pub open spec fn decimal(n: nat) -> Seq<u8>
    decreases n,
{
    if n < 10 {
        seq![(48 + n) as u8]
    } else {
        decimal(n / 10).push((48 + n % 10) as u8)
    }
}

/// Where the extension of the last component of `path` starts: at the last
/// `.` when it comes after the last separator, otherwise at the end (no
/// extension).
pub open spec fn extension_start(path: Seq<u8>) -> int {
    let d = last_index_of(path, DOT);
    if d > last_separator(path) {
        d
    } else {
        path.len() as int
    }
}

/// `path` without the extension of its last component.
pub open spec fn stem(path: Seq<u8>) -> Seq<u8> {
    path.subrange(0, extension_start(path))
}

/// The extension of the last component of `path`, from its last `.` on
/// (empty when the last component has no `.`).
pub open spec fn extension(path: Seq<u8>) -> Seq<u8> {
    path.subrange(extension_start(path), path.len() as int)
}

/// The name tried at attempt `attempt` for a copy meant for `intended`:
/// `intended` itself first, then `stem (n)extension` for n = 1, 2, ...
/// The number goes into the last component, before its extension, so the
/// folders of `intended` are kept.
pub open spec fn candidate_path(intended: Seq<u8>, attempt: nat) -> Seq<u8> {
    if attempt == 0 {
        intended
    } else {
        stem(intended) + seq![32u8, 40u8] + decimal(attempt) + seq![41u8] + extension(intended)
    }
}

pub proof fn lemma_last_separator_bounds(s: Seq<u8>)
    ensures
        -1 <= last_separator(s) < s.len(),
        last_separator(s) >= 0 ==> is_separator(s[last_separator(s)]),
        forall|i: int| last_separator(s) < i < s.len() ==> !is_separator(#[trigger] s[i]),
    decreases s.len(),
{
    if s.len() > 0 && !is_separator(s.last()) {
        lemma_last_separator_bounds(s.drop_last());
        assert forall|i: int| last_separator(s) < i < s.len() implies !is_separator(
            #[trigger] s[i],
        ) by {
            if i < s.len() - 1 {
                assert(s[i] == s.drop_last()[i]);
            }
        }
    }
}

pub proof fn lemma_last_index_of_bounds(s: Seq<u8>, c: u8)
    ensures
        -1 <= last_index_of(s, c) < s.len(),
        last_index_of(s, c) >= 0 ==> s[last_index_of(s, c)] == c,
        forall|i: int| last_index_of(s, c) < i < s.len() ==> #[trigger] s[i] != c,
    decreases s.len(),
{
    if s.len() > 0 && s.last() != c {
        lemma_last_index_of_bounds(s.drop_last(), c);
        assert forall|i: int| last_index_of(s, c) < i < s.len() implies #[trigger] s[i] != c by {
            if i < s.len() - 1 {
                assert(s[i] == s.drop_last()[i]);
            }
        }
    }
}

pub proof fn lemma_decimal_len(n: nat)
    ensures
        decimal(n).len() >= 1,
        n >= 10 ==> decimal(n).len() >= 2,
    decreases n,
{
    if n >= 10 {
        lemma_decimal_len(n / 10);
    }
}

/// Decimal rendering is one-to-one.
pub proof fn lemma_decimal_injective(a: nat, b: nat)
    requires
        decimal(a) == decimal(b),
    ensures
        a == b,
    decreases a,
{
    lemma_decimal_len(a);
    lemma_decimal_len(b);
    if a < 10 && b < 10 {
        assert(decimal(a) == seq![(48 + a) as u8]);
        assert(decimal(b) == seq![(48 + b) as u8]);
        assert(decimal(a)[0] == decimal(b)[0]);
        assert(seq![(48 + a) as u8][0] == (48 + a) as u8);
        assert(seq![(48 + b) as u8][0] == (48 + b) as u8);
        assert((48 + a) as u8 == (48 + b) as u8);
        assert(a == b);
    } else if a < 10 {
        assert(decimal(a).len() == 1);
    } else if b < 10 {
        assert(decimal(b).len() == 1);
    } else {
        let da = decimal(a);
        let db = decimal(b);
        assert(da == decimal(a / 10).push((48 + a % 10) as u8));
        assert(db == decimal(b / 10).push((48 + b % 10) as u8));
        assert(da.last() == db.last());
        assert(a % 10 == b % 10);
        assert(da.drop_last() =~= decimal(a / 10));
        assert(db.drop_last() =~= decimal(b / 10));
        lemma_decimal_injective(a / 10, b / 10);
        assert(a / 10 == b / 10);
        assert(a == 10 * (a / 10) + a % 10);
        assert(b == 10 * (b / 10) + b % 10);
    }
}

/// Appends `src[from..to]` to `dst`.
pub fn push_range(dst: &mut Vec<u8>, src: &[u8], from: usize, to: usize)
    requires
        from <= to <= src@.len(),
    ensures
        final(dst)@ == old(dst)@ + src@.subrange(from as int, to as int),
{
    let mut i = from;
    while i < to
        invariant
            from <= i <= to <= src@.len(),
            dst@ == old(dst)@ + src@.subrange(from as int, i as int),
        decreases to - i,
    {
        dst.push(src[i]);
        proof {
            assert(src@.subrange(from as int, i + 1) =~= src@.subrange(from as int, i as int).push(
                src@[i as int],
            ));
        }
        i = i + 1;
    }
}

/// Appends all of `src` to `dst`.
pub fn push_all(dst: &mut Vec<u8>, src: &[u8])
    ensures
        final(dst)@ == old(dst)@ + src@,
{
    push_range(dst, src, 0, src.len());
    proof {
        assert(src@.subrange(0, src@.len() as int) =~= src@);
    }
}

/// Index of the last separator, as `last_separator` gives it.
pub fn find_last_separator(s: &[u8]) -> (r: Option<usize>)
    ensures
        match r {
            Some(i) => i == last_separator(s@),
            None => last_separator(s@) == -1,
        },
{
    let mut i = s.len();
    assert(s@.subrange(0, i as int) =~= s@);
    while i > 0
        invariant
            i <= s@.len(),
            last_separator(s@) == last_separator(s@.subrange(0, i as int)),
        decreases i,
    {
        let c = s[i - 1];
        proof {
            assert(s@.subrange(0, i as int).drop_last() =~= s@.subrange(0, i - 1));
        }
        if c == SLASH || c == BACKSLASH {
            return Some(i - 1);
        }
        i = i - 1;
    }
    None
}

/// Index of the last occurrence of `c`, as `last_index_of` gives it.
pub fn find_last(s: &[u8], c: u8) -> (r: Option<usize>)
    ensures
        match r {
            Some(i) => i == last_index_of(s@, c),
            None => last_index_of(s@, c) == -1,
        },
{
    let mut i = s.len();
    assert(s@.subrange(0, i as int) =~= s@);
    while i > 0
        invariant
            i <= s@.len(),
            last_index_of(s@, c) == last_index_of(s@.subrange(0, i as int), c),
        decreases i,
    {
        proof {
            assert(s@.subrange(0, i as int).drop_last() =~= s@.subrange(0, i - 1));
        }
        if s[i - 1] == c {
            return Some(i - 1);
        }
        i = i - 1;
    }
    None
}

/// The last component of `path` (`file_name`).
pub fn get_file_name(path: &[u8]) -> (name: Vec<u8>)
    ensures
        name@ == file_name(path@),
{
    proof {
        lemma_last_separator_bounds(path@);
    }
    let start = match find_last_separator(path) {
        Some(i) => {
            assert(i < path@.len());
            assert(path@.len() == path.len());
            i + 1
        },
        None => 0,
    };
    let mut name: Vec<u8> = Vec::new();
    push_range(&mut name, path, start, path.len());
    name
}

/// `path` with every `\` replaced by `/` (`forward_slashes`).
pub fn to_forward_slashes(path: &[u8]) -> (out: Vec<u8>)
    ensures
        out@ == forward_slashes(path@),
{
    let mut out: Vec<u8> = Vec::new();
    let mut i: usize = 0;
    while i < path.len()
        invariant
            i <= path@.len(),
            out@ == forward_slashes(path@.subrange(0, i as int)),
        decreases path@.len() - i,
    {
        let c = path[i];
        if c == BACKSLASH {
            out.push(SLASH);
        } else {
            out.push(c);
        }
        proof {
            assert(forward_slashes(path@.subrange(0, i + 1)) =~= forward_slashes(
                path@.subrange(0, i as int),
            ).push(if c == BACKSLASH { SLASH } else { c }));
        }
        i = i + 1;
    }
    proof {
        assert(path@.subrange(0, path@.len() as int) =~= path@);
    }
    out
}

/// Appends the decimal digits of `n` to `dst`.
pub fn push_decimal(dst: &mut Vec<u8>, n: u32)
    ensures
        final(dst)@ == old(dst)@ + decimal(n as nat),
    decreases n,
{
    if n < 10 {
        dst.push(48 + n as u8);
        assert(decimal(n as nat) =~= seq![(48 + n) as u8]);
    } else {
        push_decimal(dst, n / 10);
        dst.push(48 + (n % 10) as u8);
        assert(decimal(n as nat) =~= decimal((n / 10) as nat).push((48 + n % 10) as u8));
    }
}

/// The name tried at attempt `attempt` for a copy meant for `intended`
/// (`candidate_path`).
pub fn make_candidate(intended: &[u8], attempt: u32) -> (out: Vec<u8>)
    ensures
        out@ == candidate_path(intended@, attempt as nat),
{
    let mut out: Vec<u8> = Vec::new();
    if attempt == 0 {
        push_all(&mut out, intended);
        assert(out@ =~= intended@);
        return out;
    }
    proof {
        lemma_last_index_of_bounds(intended@, DOT);
        lemma_last_separator_bounds(intended@);
    }
    let split = match find_last(intended, DOT) {
        Some(d) => match find_last_separator(intended) {
            Some(sep) => if d > sep {
                d
            } else {
                intended.len()
            },
            None => d,
        },
        None => intended.len(),
    };
    push_range(&mut out, intended, 0, split);
    out.push(32);
    out.push(40);
    push_decimal(&mut out, attempt);
    out.push(41);
    push_range(&mut out, intended, split, intended.len());
    proof {
        assert(split == extension_start(intended@));
        assert(out@ =~= candidate_path(intended@, attempt as nat));
    }
    out
}

/// A numbered name keeps the folders of the name it numbers: everything up
/// to and including the last separator of `intended` is unchanged.
pub proof fn lemma_candidate_keeps_folder(intended: Seq<u8>, attempt: nat)
    ensures
        candidate_path(intended, attempt).len() >= intended.len(),
        candidate_path(intended, attempt).subrange(0, last_separator(intended) + 1)
            == intended.subrange(0, last_separator(intended) + 1),
{
    lemma_last_index_of_bounds(intended, DOT);
    lemma_last_separator_bounds(intended);
    let k = last_separator(intended) + 1;
    if attempt > 0 {
        let c = candidate_path(intended, attempt);
        let st = stem(intended);
        assert(st.len() >= k);
        assert(c.subrange(0, k) =~= st.subrange(0, k));
        assert(st.subrange(0, k) =~= intended.subrange(0, k));
    }
}

/// Each attempt proposes a name of its own: the candidates for two different
/// attempts are different paths, so the search for a free name never tries
/// the same path twice.
pub proof fn lemma_candidates_distinct(intended: Seq<u8>, a: nat, b: nat)
    requires
        a != b,
    ensures
        candidate_path(intended, a) != candidate_path(intended, b),
{
    lemma_decimal_len(a);
    lemma_decimal_len(b);
    lemma_last_index_of_bounds(intended, DOT);
    lemma_last_separator_bounds(intended);
    let st = stem(intended);
    let ex = extension(intended);
    assert(st.len() + ex.len() == intended.len());
    if a == 0 || b == 0 {
        // the numbered name is at least four bytes longer than `intended`
    } else if candidate_path(intended, a) == candidate_path(intended, b) {
        let ca = candidate_path(intended, a);
        let cb = candidate_path(intended, b);
        let da = decimal(a);
        let db = decimal(b);
        assert(ca == st + seq![32u8, 40u8] + da + seq![41u8] + ex);
        assert(cb == st + seq![32u8, 40u8] + db + seq![41u8] + ex);
        assert(ca.len() == st.len() + 3 + da.len() + ex.len());
        assert(cb.len() == st.len() + 3 + db.len() + ex.len());
        assert(da.len() == db.len());
        let s: int = st.len() as int + 2;
        assert(ca.subrange(s, s + da.len() as int) =~= da);
        assert(cb.subrange(s, s + db.len() as int) =~= db);
        lemma_decimal_injective(a, b);
    }
}

} // verus!
