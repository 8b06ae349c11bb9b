use vstd::prelude::*;
use vstd::string::StrSliceExecFns;
use vstd::string::StringExecFns;

verus! {

/// The ASCII whitespace characters recognized as token separators in a log
/// line header.
pub open spec fn is_space(c: char) -> bool {
    c == ' ' || c == '\t' || c == '\r' || c == '\u{b}' || c == '\u{c}'
}

pub fn is_space_char(c: char) -> (b: bool)
    ensures
        b == is_space(c),
{
    c == ' ' || c == '\t' || c == '\r' || c == '\u{b}' || c == '\u{c}'
}

/// The needle `n` occurs in `h` starting at position `i`.
pub open spec fn match_at(h: Seq<char>, n: Seq<char>, i: int) -> bool {
    0 <= i && i + n.len() <= h.len() && h.subrange(i, i + n.len() as int) == n
}

/// The needle `n` occurs somewhere in `h`.
pub open spec fn contains_seq(h: Seq<char>, n: Seq<char>) -> bool {
    exists|i: int| match_at(h, n, i)
}

/// Relies on String::push, which appends the given character to the end of
/// the string.
#[verifier::external_body]
pub fn push_char(s: &mut String, c: char)
    ensures
        final(s)@ == old(s)@.push(c),
{
    s.push(c);
}

/// Whether `n` occurs in `h` at the given position.
pub fn match_at_idx(h: &str, n: &str, i: usize) -> (b: bool)
    requires
        i + n@.len() <= h@.len(),
    ensures
        b == match_at(h@, n@, i as int),
{
    let nl = n.unicode_len();
    let hl = h.unicode_len();
    let mut j: usize = 0;
    while j < nl
        invariant
            i + n@.len() <= h@.len(),
            nl == n@.len(),
            hl == h@.len(),
            0 <= j <= nl,
            forall|k: int| 0 <= k < j ==> h@[i + k] == n@[k],
        decreases nl - j,
    {
        if h.get_char(i + j) != n.get_char(j) {
            assert(!match_at(h@, n@, i as int)) by {
                if match_at(h@, n@, i as int) {
                    assert(h@.subrange(i as int, i + n@.len() as int)[j as int] == n@[j as int]);
                }
            }
            return false;
        }
        j += 1;
    }
    assert(h@.subrange(i as int, i + n@.len() as int) =~= n@);
    true
}

/// Position of the first occurrence of `n` in `h`, if any.
pub fn find_first(h: &str, n: &str) -> (r: Option<usize>)
    ensures
        match r {
            Some(i) => match_at(h@, n@, i as int) && forall|j: int|
                0 <= j < i ==> !match_at(h@, n@, j),
            None => !contains_seq(h@, n@),
        },
{
    let hl = h.unicode_len();
    let nl = n.unicode_len();
    if nl > hl {
        return None;
    }
    if nl == 0 {
        assert(h@.subrange(0, 0) =~= n@);
        return Some(0);
    }
    let mut i: usize = 0;
    while i <= hl - nl
        invariant
            hl == h@.len(),
            nl == n@.len(),
            0 < nl <= hl,
            0 <= i <= hl - nl + 1,
            forall|j: int| 0 <= j < i ==> !match_at(h@, n@, j),
        decreases hl - nl - i + 1,
    {
        if match_at_idx(h, n, i) {
            return Some(i);
        }
        i += 1;
    }
    None
}

/// Whether the needle occurs anywhere in the haystack.
pub fn contains_str(h: &str, n: &str) -> (b: bool)
    ensures
        b == contains_seq(h@, n@),
{
    match find_first(h, n) {
        Some(_) => true,
        None => false,
    }
}

/// Whether `n` is a prefix of `h`.
pub fn starts_with(h: &str, n: &str) -> (b: bool)
    ensures
        b == n@.is_prefix_of(h@),
{
    let hl = h.unicode_len();
    let nl = n.unicode_len();
    if nl > hl {
        return false;
    }
    match_at_idx(h, n, 0)
}

/// Whether the two strings hold the same characters.
pub fn str_eq(a: &str, b: &str) -> (r: bool)
    ensures
        r == (a@ == b@),
{
    let al = a.unicode_len();
    let bl = b.unicode_len();
    if al != bl {
        return false;
    }
    if match_at_idx(a, b, 0) {
        assert(a@.subrange(0, a@.len() as int) =~= a@);
        true
    } else {
        assert(a@.subrange(0, a@.len() as int) =~= a@);
        false
    }
}

/// The string with leading whitespace removed.
pub open spec fn trim_start_spec(s: Seq<char>) -> Seq<char>
    decreases s.len(),
{
    if s.len() > 0 && is_space(s[0]) {
        trim_start_spec(s.drop_first())
    } else {
        s
    }
}

/// The string with trailing whitespace removed.
pub open spec fn trim_end_spec(s: Seq<char>) -> Seq<char>
    decreases s.len(),
{
    if s.len() > 0 && is_space(s.last()) {
        trim_end_spec(s.drop_last())
    } else {
        s
    }
}

/// The string with whitespace removed from both ends.
pub open spec fn trim_spec(s: Seq<char>) -> Seq<char> {
    trim_end_spec(trim_start_spec(s))
}

/// A copy of `s` with whitespace removed from both ends.
pub fn trim(s: &str) -> (r: String)
    ensures
        r@ == trim_spec(s@),
{
    let len = s.unicode_len();
    let mut a: usize = 0;
    assert(s@.skip(0) =~= s@);
    while a < len && is_space_char(s.get_char(a))
        invariant
            len == s@.len(),
            0 <= a <= len,
            trim_start_spec(s@) == trim_start_spec(s@.skip(a as int)),
        decreases len - a,
    {
        assert(s@.skip(a as int).drop_first() =~= s@.skip(a + 1));
        a += 1;
    }
    assert(trim_start_spec(s@.skip(a as int)) == s@.skip(a as int));
    let mut b: usize = len;
    while b > a && is_space_char(s.get_char(b - 1))
        invariant
            len == s@.len(),
            0 <= a <= b <= len,
            trim_start_spec(s@) == s@.skip(a as int),
            trim_end_spec(s@.skip(a as int)) == trim_end_spec(s@.subrange(a as int, b as int)),
        decreases b,
    {
        assert(s@.subrange(a as int, b as int).drop_last() =~= s@.subrange(a as int, b - 1));
        b -= 1;
    }
    assert(s@.skip(a as int) =~= s@.subrange(a as int, len as int));
    assert(trim_end_spec(s@.subrange(a as int, b as int)) == s@.subrange(a as int, b as int));
    let sub = s.substring_char(a, b);
    sub.to_owned()
}

/// Position of the first character at or after `i` that is not whitespace,
/// or the length of `s` if all of them are.
pub open spec fn skip_spaces(s: Seq<char>, i: int) -> int
    decreases s.len() - i,
{
    if i < 0 || i >= s.len() {
        s.len() as int
    } else if is_space(s[i]) {
        skip_spaces(s, i + 1)
    } else {
        i
    }
}

/// Position of the first whitespace character at or after `i`, or the length
/// of `s` if there is none.
pub open spec fn skip_token(s: Seq<char>, i: int) -> int
    decreases s.len() - i,
{
    if i < 0 || i >= s.len() {
        s.len() as int
    } else if is_space(s[i]) {
        i
    } else {
        skip_token(s, i + 1)
    }
}

pub fn skip_spaces_idx(s: &str, i: usize) -> (r: usize)
    requires
        i <= s@.len(),
    ensures
        r == skip_spaces(s@, i as int),
        i <= r <= s@.len(),
{
    let len = s.unicode_len();
    let mut j: usize = i;
    while j < len && is_space_char(s.get_char(j))
        invariant
            len == s@.len(),
            i <= j <= len,
            skip_spaces(s@, i as int) == skip_spaces(s@, j as int),
        decreases len - j,
    {
        j += 1;
    }
    j
}

pub fn skip_token_idx(s: &str, i: usize) -> (r: usize)
    requires
        i <= s@.len(),
    ensures
        r == skip_token(s@, i as int),
        i <= r <= s@.len(),
{
    let len = s.unicode_len();
    let mut j: usize = i;
    while j < len && !is_space_char(s.get_char(j))
        invariant
            len == s@.len(),
            i <= j <= len,
            skip_token(s@, i as int) == skip_token(s@, j as int),
        decreases len - j,
    {
        j += 1;
    }
    j
}

/// Whether a character is one of the bracket characters removed from the
/// timestamp tokens of a log line header.
pub open spec fn is_bracket(c: char) -> bool {
    c == '[' || c == ']'
}

/// The string with every bracket character removed.
pub open spec fn strip_brackets(s: Seq<char>) -> Seq<char> {
    s.filter(|c: char| !is_bracket(c))
}

/// Appends a copy of `s`, with every bracket character removed, to `out`.
pub fn append_stripped(out: &mut String, s: &str)
    ensures
        final(out)@ == old(out)@ + strip_brackets(s@),
{
    let len = s.unicode_len();
    let mut i: usize = 0;
    proof {
        assert(s@.subrange(0, 0) =~= Seq::<char>::empty());
        reveal(Seq::filter);
        assert(out@ + strip_brackets(s@.subrange(0, 0)) =~= out@);
    }
    while i < len
        invariant
            len == s@.len(),
            0 <= i <= len,
            out@ == old(out)@ + strip_brackets(s@.subrange(0, i as int)),
        decreases len - i,
    {
        let c = s.get_char(i);
        proof {
            assert(s@.subrange(0, i + 1) =~= s@.subrange(0, i as int) + seq![s@[i as int]]);
            Seq::<char>::filter_distributes_over_add(
                s@.subrange(0, i as int),
                seq![s@[i as int]],
                |x: char| !is_bracket(x),
            );
            reveal(Seq::filter);
            assert(seq![s@[i as int]].drop_last() =~= Seq::<char>::empty());
            assert(Seq::<char>::empty().filter(|x: char| !is_bracket(x)) =~= Seq::<char>::empty());
            if is_bracket(s@[i as int]) {
                assert(seq![s@[i as int]].filter(|x: char| !is_bracket(x)) =~= Seq::<
                    char,
                >::empty());
            } else {
                assert(seq![s@[i as int]].filter(|x: char| !is_bracket(x)) =~= seq![s@[i as int]]);
            }
        }
        if !(c == '[' || c == ']') {
            push_char(out, c);
        }
        proof {
            if is_bracket(c) {
                assert(out@ + strip_brackets(s@.subrange(0, i + 1)) =~= out@ + strip_brackets(
                    s@.subrange(0, i as int),
                ));
            } else {
                assert(old(out)@ + strip_brackets(s@.subrange(0, i + 1)) =~= (old(out)@
                    + strip_brackets(s@.subrange(0, i as int))).push(s@[i as int]));
            }
        }
        i += 1;
    }
    assert(s@.subrange(0, len as int) =~= s@);
}

/// The line with one trailing carriage return removed.
pub open spec fn strip_cr(l: Seq<char>) -> Seq<char> {
    if l.len() > 0 && l.last() == '\r' {
        l.drop_last()
    } else {
        l
    }
}

/// The pieces of `s` between newline characters; one more piece than there
/// are newlines.
pub open spec fn split_lines_raw(s: Seq<char>) -> Seq<Seq<char>>
    decreases s.len(),
{
    if s.len() == 0 {
        seq![Seq::<char>::empty()]
    } else if s[0] == '\n' {
        seq![Seq::<char>::empty()] + split_lines_raw(s.drop_first())
    } else {
        let rest = split_lines_raw(s.drop_first());
        seq![seq![s[0]] + rest[0]] + rest.drop_first()
    }
}

/// The lines of `s`: the pieces between newlines, each with one trailing
/// carriage return removed, and without the empty piece a trailing newline
/// would otherwise produce.
pub open spec fn split_lines_spec(s: Seq<char>) -> Seq<Seq<char>> {
    let raw = split_lines_raw(s);
    let pieces = if raw.last().len() == 0 {
        raw.drop_last()
    } else {
        raw
    };
    pieces.map_values(|l: Seq<char>| strip_cr(l))
}

pub proof fn lemma_split_raw_len(s: Seq<char>)
    ensures
        split_lines_raw(s).len() >= 1,
    decreases s.len(),
{
    if s.len() > 0 {
        lemma_split_raw_len(s.drop_first());
    }
}

/// A text without newlines is a single piece.
pub proof fn lemma_split_raw_no_newline(s: Seq<char>)
    requires
        forall|j: int| 0 <= j < s.len() ==> s[j] != '\n',
    ensures
        split_lines_raw(s) == seq![s],
    decreases s.len(),
{
    if s.len() == 0 {
        assert(split_lines_raw(s) =~~= seq![s]);
    } else {
        lemma_split_raw_no_newline(s.drop_first());
        lemma_split_raw_len(s.drop_first());
        assert(seq![s[0]] + split_lines_raw(s.drop_first())[0] =~= s);
        assert(split_lines_raw(s) =~~= seq![s]);
    }
}

/// Splitting at the first newline: the piece before it, then the pieces of
/// the rest.
pub proof fn lemma_split_raw_first(s: Seq<char>, k: int)
    requires
        0 <= k < s.len(),
        s[k] == '\n',
        forall|j: int| 0 <= j < k ==> s[j] != '\n',
    ensures
        split_lines_raw(s) == seq![s.subrange(0, k)] + split_lines_raw(s.skip(k + 1)),
    decreases k,
{
    if k == 0 {
        assert(s.subrange(0, 0) =~= Seq::<char>::empty());
        assert(s.drop_first() =~= s.skip(1));
    } else {
        lemma_split_raw_first(s.drop_first(), k - 1);
        lemma_split_raw_len(s.drop_first().skip(k));
        assert(s.drop_first().subrange(0, k - 1) =~= s.subrange(1, k));
        assert(s.drop_first().skip(k) =~= s.skip(k + 1));
        let rest = split_lines_raw(s.drop_first());
        assert(rest == seq![s.subrange(1, k)] + split_lines_raw(s.skip(k + 1)));
        assert(seq![s[0]] + rest[0] =~= s.subrange(0, k));
        assert(rest.drop_first() =~= split_lines_raw(s.skip(k + 1)));
        assert(split_lines_raw(s) =~~= seq![s.subrange(0, k)] + split_lines_raw(s.skip(k + 1)));
    }
}

/// The lines of `s`, as `str::lines` produces them.
pub fn split_lines(s: &str) -> (r: Vec<String>)
    ensures
        r.deep_view() == split_lines_spec(s@),
{
    let len = s.unicode_len();
    let mut pieces: Vec<String> = Vec::new();
    let ghost mut gpieces: Seq<Seq<char>> = seq![];
    let mut start: usize = 0;
    let mut i: usize = 0;
    proof {
        assert(s@.skip(0) =~= s@);
        assert(gpieces + split_lines_raw(s@) =~~= split_lines_raw(s@));
    }
    while i < len
        invariant
            len == s@.len(),
            0 <= start <= i <= len,
            split_lines_raw(s@) == gpieces + split_lines_raw(s@.skip(start as int)),
            pieces@.len() == gpieces.len(),
            forall|k: int|
                0 <= k < gpieces.len() ==> #[trigger] pieces.deep_view()[k] == strip_cr(
                    gpieces[k],
                ),
            forall|j: int| start <= j < i ==> s@[j] != '\n',
        decreases len - i,
    {
        if s.get_char(i) == '\n' {
            let piece = if i > start && s.get_char(i - 1) == '\r' {
                s.substring_char(start, i - 1)
            } else {
                s.substring_char(start, i)
            };
            let owned = piece.to_owned();
            let ghost prev: Seq<String> = pieces@;
            let ghost prevg: Seq<Seq<char>> = gpieces;
            let ghost prev_dv: Seq<Seq<char>> = pieces.deep_view();
            pieces.push(owned);
            proof {
                let t = s@.skip(start as int);
                lemma_split_raw_first(t, i - start);
                assert(t.subrange(0, i - start) =~= s@.subrange(start as int, i as int));
                assert(t.skip(i - start + 1) =~= s@.skip(i + 1));
                let p = s@.subrange(start as int, i as int);
                if p.len() > 0 && p.last() == '\r' {
                    assert(p.drop_last() =~= s@.subrange(start as int, i - 1));
                }
                assert(piece@ == strip_cr(p));
                gpieces = prevg.push(p);
                assert(split_lines_raw(s@) =~~= gpieces + split_lines_raw(s@.skip(i + 1)));
                assert forall|k: int| 0 <= k < gpieces.len() implies #[trigger] pieces.deep_view()[k]
                    == strip_cr(gpieces[k]) by {
                    assert(pieces.deep_view()[k] == pieces@[k].deep_view());
                    if k < prev.len() {
                        assert(pieces@[k] == prev[k]);
                        assert(prev_dv[k] == prev[k].deep_view());
                        assert(prev_dv[k] == strip_cr(prevg[k]));
                    } else {
                        assert(pieces@[k] == owned);
                    }
                }
            }
            start = i + 1;
        }
        i += 1;
    }
    proof {
        lemma_split_raw_no_newline(s@.skip(start as int));
        lemma_split_raw_len(s@);
    }
    if start < len {
        let piece = if s.get_char(len - 1) == '\r' {
            s.substring_char(start, len - 1)
        } else {
            s.substring_char(start, len)
        };
        let owned = piece.to_owned();
        let ghost prev: Seq<String> = pieces@;
        let ghost prevg: Seq<Seq<char>> = gpieces;
        let ghost prev_dv: Seq<Seq<char>> = pieces.deep_view();
        pieces.push(owned);
        proof {
            let p = s@.skip(start as int);
            assert(p =~= s@.subrange(start as int, len as int));
            if p.last() == '\r' {
                assert(p.drop_last() =~= s@.subrange(start as int, len - 1));
            }
            assert(piece@ == strip_cr(p));
            gpieces = prevg.push(p);
            let raw = split_lines_raw(s@);
            assert(raw =~~= gpieces);
            assert(raw.last() == p);
            assert(p.len() > 0);
            assert forall|k: int| 0 <= k < gpieces.len() implies #[trigger] pieces.deep_view()[k]
                == strip_cr(gpieces[k]) by {
                assert(pieces.deep_view()[k] == pieces@[k].deep_view());
                if k < prev.len() {
                    assert(pieces@[k] == prev[k]);
                    assert(prev_dv[k] == prev[k].deep_view());
                    assert(prev_dv[k] == strip_cr(prevg[k]));
                } else {
                    assert(pieces@[k] == owned);
                }
            }
            assert(pieces.deep_view() =~~= split_lines_spec(s@));
        }
    } else {
        proof {
            let p = s@.skip(start as int);
            assert(p.len() == 0);
            let raw = split_lines_raw(s@);
            assert(raw =~~= gpieces + seq![p]);
            assert(raw.last() == p);
            assert(raw.drop_last() =~~= gpieces);
            assert(pieces.deep_view() =~~= split_lines_spec(s@));
        }
    }
    pieces
}

} // verus!
