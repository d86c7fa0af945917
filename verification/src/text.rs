//! Byte-level text utilities: lines, searching, splitting and trimming.
use vstd::prelude::*;

verus! {

/// `\n`
pub const NEWLINE: u8 = 10;

/// `\r`
pub const CARRIAGE_RETURN: u8 = 13;

/// ` `
pub const SPACE: u8 = 32;

/// `,`
pub const COMMA: u8 = 44;

/// `:`
pub const COLON: u8 = 58;

/// The texts held by a vector of byte vectors.
pub open spec fn texts(v: Vec<Vec<u8>>) -> Seq<Seq<u8>> {
    v@.map_values(|t: Vec<u8>| t@)
}

/// A line without the `\r` that ends it, if one does.
pub open spec fn strip_cr(line: Seq<u8>) -> Seq<u8> {
    if line.len() > 0 && line.last() == CARRIAGE_RETURN {
        line.drop_last()
    } else {
        line
    }
}

/// The lines of `rest`, the first of them being continued from `current`:
/// a line ends at each `\n` (which is dropped, together with a `\r` just
/// before it); text after the last `\n` is a line of its own if it is not
/// empty (and keeps a final `\r`).
pub open spec fn lines_from(rest: Seq<u8>, current: Seq<u8>) -> Seq<Seq<u8>>
    decreases rest.len(),
{
    if rest.len() == 0 {
        if current.len() == 0 {
            Seq::empty()
        } else {
            seq![current]
        }
    } else if rest[0] == NEWLINE {
        seq![strip_cr(current)] + lines_from(rest.drop_first(), Seq::empty())
    } else {
        lines_from(rest.drop_first(), current.push(rest[0]))
    }
}

/// The lines of `text`, split as `BufRead::lines` splits them.
pub open spec fn split_lines(text: Seq<u8>) -> Seq<Seq<u8>> {
    lines_from(text, Seq::empty())
}

/// Whether `s` begins with `prefix`.
pub open spec fn starts_with(s: Seq<u8>, prefix: Seq<u8>) -> bool {
    prefix.len() <= s.len() && s.take(prefix.len() as int) == prefix
}

/// The index of the first `b` in `s`, or -1 if there is none.
pub open spec fn first_index(s: Seq<u8>, b: u8) -> int
    decreases s.len(),
{
    if s.len() == 0 {
        -1
    } else if s[0] == b {
        0
    } else {
        let r = first_index(s.drop_first(), b);
        if r < 0 {
            -1
        } else {
            r + 1
        }
    }
}

/// Whether the separator `", "` starts at index `i` of `s`.
pub open spec fn separator_at(s: Seq<u8>, i: int) -> bool {
    0 <= i && i + 1 < s.len() && s[i] == COMMA && s[i + 1] == SPACE
}

/// The index of the first separator `", "` in `s`, or -1 if there is none.
pub open spec fn first_separator(s: Seq<u8>) -> int
    decreases s.len(),
{
    if s.len() < 2 {
        -1
    } else if s[0] == COMMA && s[1] == SPACE {
        0
    } else {
        let r = first_separator(s.drop_first());
        if r < 0 {
            -1
        } else {
            r + 1
        }
    }
}

/// The pieces of `s` between the separators `", "`, as `str::split(", ")`
/// gives them (an empty text is one empty piece).
pub open spec fn split_on_separator(s: Seq<u8>) -> Seq<Seq<u8>>
    decreases s.len(),
{
    let i = first_separator(s);
    if i < 0 || i + 2 > s.len() {
        seq![s]
    } else {
        seq![s.take(i)] + split_on_separator(s.skip(i + 2))
    }
}

/// The pieces joined with the separator `", "` between them.
pub open spec fn joined(pieces: Seq<Seq<u8>>) -> Seq<u8>
    decreases pieces.len(),
{
    if pieces.len() == 0 {
        Seq::empty()
    } else if pieces.len() == 1 {
        pieces[0]
    } else {
        pieces[0] + seq![COMMA, SPACE] + joined(pieces.drop_first())
    }
}

/// `s` without the colons that end it.
pub open spec fn trim_colons(s: Seq<u8>) -> Seq<u8>
    decreases s.len(),
{
    if s.len() > 0 && s.last() == COLON {
        trim_colons(s.drop_last())
    } else {
        s
    }
}

/// The second of the pieces of `s` between single spaces, as
/// `str::split(" ").nth(1)` gives it.
pub open spec fn second_field(s: Seq<u8>) -> Option<Seq<u8>> {
    let i = first_index(s, SPACE);
    if i < 0 {
        None
    } else {
        let rest = s.skip(i + 1);
        let j = first_index(rest, SPACE);
        Some(
            if j < 0 {
                rest
            } else {
                rest.take(j)
            },
        )
    }
}

/// What `first_index` is.
pub proof fn lemma_first_index(s: Seq<u8>, b: u8)
    ensures
        -1 <= first_index(s, b) < s.len(),
        first_index(s, b) >= 0 ==> s[first_index(s, b)] == b,
        forall|j: int| 0 <= j < first_index(s, b) ==> s[j] != b,
        first_index(s, b) < 0 ==> forall|j: int| 0 <= j < s.len() ==> s[j] != b,
    decreases s.len(),
{
    if s.len() > 0 && s[0] != b {
        lemma_first_index(s.drop_first(), b);
        assert forall|j: int| 0 <= j < first_index(s, b) implies s[j] != b by {
            if j > 0 {
                assert(s[j] == s.drop_first()[j - 1]);
            }
        }
        if first_index(s, b) < 0 {
            assert forall|j: int| 0 <= j < s.len() implies s[j] != b by {
                if j > 0 {
                    assert(s[j] == s.drop_first()[j - 1]);
                }
            }
        }
    }
}

/// What `first_separator` is.
pub proof fn lemma_first_separator(s: Seq<u8>)
    ensures
        -1 <= first_separator(s),
        first_separator(s) >= 0 ==> separator_at(s, first_separator(s)),
        forall|j: int| 0 <= j < first_separator(s) ==> !separator_at(s, j),
        first_separator(s) < 0 ==> forall|j: int| !separator_at(s, j),
    decreases s.len(),
{
    if s.len() >= 2 && !(s[0] == COMMA && s[1] == SPACE) {
        let t = s.drop_first();
        lemma_first_separator(t);
        assert forall|j: int| 0 <= j < first_separator(s) implies !separator_at(s, j) by {
            if j > 0 {
                assert(separator_at(s, j) == separator_at(t, j - 1));
            }
        }
        if first_separator(s) < 0 {
            assert forall|j: int| !separator_at(s, j) by {
                if j > 0 {
                    assert(separator_at(s, j) == separator_at(t, j - 1));
                }
            }
        }
        if first_separator(s) >= 0 {
            assert(separator_at(s, first_separator(s)) == separator_at(t, first_separator(t)));
        }
    }
}

/// The first `b` within `s[from..to]`, as an index of `s`.
pub fn find_byte(s: &Vec<u8>, from: usize, to: usize, b: u8) -> (found: Option<usize>)
    requires
        from <= to <= s@.len(),
    ensures
        match found {
            Some(k) => from <= k < to && first_index(s@.subrange(from as int, to as int), b) == k
                - from,
            None => first_index(s@.subrange(from as int, to as int), b) < 0,
        },
{
    let ghost sub = s@.subrange(from as int, to as int);
    proof {
        lemma_first_index(sub, b);
    }
    let mut k = from;
    while k < to
        invariant
            from <= k <= to <= s@.len(),
            sub == s@.subrange(from as int, to as int),
            forall|j: int| from <= j < k ==> s@[j] != b,
        decreases to - k,
    {
        if s[k] == b {
            proof {
                lemma_first_index(sub, b);
                let f = first_index(sub, b);
                assert(sub[k - from] == b);
                if f < 0 {
                    assert(sub[k - from] != b);
                } else if f > k - from {
                    assert(sub[k - from] != b);
                } else if f < k - from {
                    assert(sub[f] == s@[from + f]);
                }
                assert(f == k - from);
            }
            return Some(k);
        }
        k = k + 1;
    }
    proof {
        lemma_first_index(sub, b);
        let f = first_index(sub, b);
        if f >= 0 {
            assert(sub[f] == s@[from + f]);
        }
    }
    None
}

/// A copy of `s[lo..hi]`.
pub fn copy_range(s: &Vec<u8>, lo: usize, hi: usize) -> (piece: Vec<u8>)
    requires
        lo <= hi <= s@.len(),
    ensures
        piece@ == s@.subrange(lo as int, hi as int),
{
    let mut piece: Vec<u8> = Vec::new();
    let mut k = lo;
    while k < hi
        invariant
            lo <= k <= hi <= s@.len(),
            piece@ == s@.subrange(lo as int, k as int),
        decreases hi - k,
    {
        piece.push(s[k]);
        k = k + 1;
        assert(piece@ =~= s@.subrange(lo as int, k as int));
    }
    piece
}

/// Whether `s` begins with `prefix`.
pub fn has_prefix(s: &Vec<u8>, prefix: &Vec<u8>) -> (yes: bool)
    ensures
        yes == starts_with(s@, prefix@),
{
    if prefix.len() > s.len() {
        return false;
    }
    let mut k: usize = 0;
    while k < prefix.len()
        invariant
            prefix@.len() <= s@.len(),
            0 <= k <= prefix@.len(),
            forall|j: int| 0 <= j < k ==> s@[j] == prefix@[j],
        decreases prefix@.len() - k,
    {
        if s[k] != prefix[k] {
            assert(s@.take(prefix@.len() as int)[k as int] != prefix@[k as int]);
            return false;
        }
        k = k + 1;
    }
    assert(s@.take(prefix@.len() as int) =~= prefix@);
    true
}

/// The end of `s[lo..hi]` once the colons that end it are dropped.
pub fn trim_colons_end(s: &Vec<u8>, lo: usize, hi: usize) -> (end: usize)
    requires
        lo <= hi <= s@.len(),
    ensures
        lo <= end <= hi,
        s@.subrange(lo as int, end as int) == trim_colons(s@.subrange(lo as int, hi as int)),
{
    let mut k = hi;
    while k > lo && s[k - 1] == COLON
        invariant
            lo <= k <= hi <= s@.len(),
            trim_colons(s@.subrange(lo as int, hi as int)) == trim_colons(
                s@.subrange(lo as int, k as int),
            ),
        decreases k,
    {
        assert(s@.subrange(lo as int, k as int).drop_last() =~= s@.subrange(
            lo as int,
            k - 1,
        ));
        k = k - 1;
    }
    k
}

/// The pieces of `s[lo..hi]` between the separators `", "`.
pub fn split_separated(s: &Vec<u8>, lo: usize, hi: usize) -> (pieces: Vec<Vec<u8>>)
    requires
        lo <= hi <= s@.len(),
    ensures
        texts(pieces) == split_on_separator(s@.subrange(lo as int, hi as int)),
{
    let mut pieces: Vec<Vec<u8>> = Vec::new();
    let mut p = lo;
    let mut q = lo;
    while q < hi
        invariant
            lo <= p <= q <= hi <= s@.len(),
            split_on_separator(s@.subrange(lo as int, hi as int)) == texts(pieces)
                + split_on_separator(s@.subrange(p as int, hi as int)),
            forall|j: int| 0 <= j < q - p ==> !#[trigger] separator_at(s@.subrange(p as int, hi as int), j),
        decreases hi - q,
    {
        if q + 1 < hi && s[q] == COMMA && s[q + 1] == SPACE {
            let ghost rest = s@.subrange(p as int, hi as int);
            proof {
                lemma_first_separator(rest);
                assert(separator_at(rest, q - p));
                let f = first_separator(rest);
                if f >= 0 && f < q - p {
                    assert(!separator_at(rest, f));
                }
                assert(f == q - p);
                assert(rest.take(q - p) =~= s@.subrange(p as int, q as int));
                assert(rest.skip(q - p + 2) =~= s@.subrange(q + 2, hi as int));
            }
            let piece = copy_range(s, p, q);
            let ghost before = texts(pieces);
            pieces.push(piece);
            proof {
                assert(texts(pieces) =~= before.push(s@.subrange(p as int, q as int)));
                assert(split_on_separator(rest) == seq![s@.subrange(p as int, q as int)]
                    + split_on_separator(s@.subrange(q + 2, hi as int)));
                assert(before + split_on_separator(rest) =~= texts(pieces)
                    + split_on_separator(s@.subrange(q + 2, hi as int)));
            }
            p = q + 2;
            q = q + 2;
        } else {
            proof {
                let rest = s@.subrange(p as int, hi as int);
                if separator_at(rest, q - p) {
                    assert(rest[q - p] == s@[q as int]);
                    assert(rest[q - p + 1] == s@[q + 1]);
                }
            }
            q = q + 1;
        }
    }
    let ghost rest = s@.subrange(p as int, hi as int);
    proof {
        lemma_first_separator(rest);
        let f = first_separator(rest);
        if f >= 0 {
            assert(!separator_at(rest, f));
        }
        assert(split_on_separator(rest) == seq![rest]);
    }
    let piece = copy_range(s, p, hi);
    let ghost before = texts(pieces);
    pieces.push(piece);
    assert(texts(pieces) =~= before + seq![rest]);
    pieces
}

} // verus!
