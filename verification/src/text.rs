//! Verified character-level string utilities used by the parsing and
//! command-building code: equality, explosion into `Vec<char>`, splitting,
//! blank detection and trailing-whitespace trimming.

use vstd::prelude::*;

verus! {

/// Relies on String::push: appends exactly one character to the string.
#[verifier::external_body]
pub fn push_char(s: &mut String, c: char)
    ensures
        final(s)@ == old(s)@.push(c),
{
    s.push(c);
}

/// Character-for-character equality of two string slices.
pub fn str_eq(a: &str, b: &str) -> (r: bool)
    ensures
        r <==> a@ == b@,
{
    let a_len = a.unicode_len();
    let b_len = b.unicode_len();
    if a_len != b_len {
        return false;
    }
    let mut i: usize = 0;
    while i < a_len
        invariant
            i <= a_len,
            a_len == a@.len(),
            a_len == b@.len(),
            forall|j: int| 0 <= j < i ==> a@[j] == b@[j],
        decreases a_len - i,
    {
        if a.get_char(i) != b.get_char(i) {
            return false;
        }
        i = i + 1;
    }
    proof {
        assert(a@ =~= b@);
    }
    true
}

/// Explodes a string slice into the vector of its characters.
pub fn to_chars(s: &str) -> (r: Vec<char>)
    ensures
        r@ == s@,
{
    let len = s.unicode_len();
    let mut r: Vec<char> = Vec::new();
    let mut i: usize = 0;
    while i < len
        invariant
            i <= len,
            len == s@.len(),
            r@ == s@.subrange(0, i as int),
        decreases len - i,
    {
        r.push(s.get_char(i));
        proof {
            assert(r@ =~= s@.subrange(0, i + 1));
        }
        i = i + 1;
    }
    proof {
        assert(s@.subrange(0, len as int) =~= s@);
    }
    r
}

/// Builds a `String` holding exactly the given characters.
pub fn from_chars(v: &Vec<char>) -> (r: String)
    ensures
        r@ == v@,
{
    let mut r = String::new();
    let mut i: usize = 0;
    while i < v.len()
        invariant
            i <= v@.len(),
            r@ == v@.subrange(0, i as int),
        decreases v@.len() - i,
    {
        push_char(&mut r, v[i]);
        proof {
            assert(r@ =~= v@.subrange(0, i + 1));
        }
        i = i + 1;
    }
    proof {
        assert(v@.subrange(0, v@.len() as int) =~= v@);
    }
    r
}

/// ASCII whitespace, as the parsers here understand it.
pub open spec fn is_space_char(c: char) -> bool {
    c == ' ' || c == '\t' || c == '\n' || c == '\r' || c == '\u{b}' || c == '\u{c}'
}

/// Executable mirror of [`is_space_char`].
pub fn is_space(c: char) -> (r: bool)
    ensures
        r == is_space_char(c),
{
    c == ' ' || c == '\t' || c == '\n' || c == '\r' || c == '\u{b}' || c == '\u{c}'
}

/// A string is blank when every character is whitespace (so also when empty).
pub open spec fn spec_is_blank(s: Seq<char>) -> bool {
    forall|i: int| 0 <= i < s.len() ==> is_space_char(s[i])
}

/// Whether the string consists of whitespace only.
pub fn is_blank(s: &str) -> (r: bool)
    ensures
        r == spec_is_blank(s@),
{
    let len = s.unicode_len();
    let mut i: usize = 0;
    while i < len
        invariant
            i <= len,
            len == s@.len(),
            forall|j: int| 0 <= j < i ==> is_space_char(s@[j]),
        decreases len - i,
    {
        if !is_space(s.get_char(i)) {
            return false;
        }
        i = i + 1;
    }
    true
}

/// The pieces of `s` between occurrences of the separator `sep`, in order.
/// Splitting the empty string yields one empty piece, as `str::split` does.
pub open spec fn spec_split(s: Seq<char>, sep: char) -> Seq<Seq<char>>
    decreases s.len(),
{
    if s.len() == 0 {
        seq![Seq::<char>::empty()]
    } else if s[0] == sep {
        seq![Seq::<char>::empty()] + spec_split(s.drop_first(), sep)
    } else {
        let rest = spec_split(s.drop_first(), sep);
        seq![seq![s[0]] + rest[0]] + rest.drop_first()
    }
}

/// Splitting always yields at least one piece.
pub proof fn lemma_split_nonempty(s: Seq<char>, sep: char)
    ensures
        spec_split(s, sep).len() >= 1,
    decreases s.len(),
{
    if s.len() > 0 {
        lemma_split_nonempty(s.drop_first(), sep);
    }
}

/// How one appended character extends a split: a separator opens a new empty
/// piece, any other character extends the last piece.
pub proof fn lemma_split_push(s: Seq<char>, sep: char, c: char)
    ensures
        c == sep ==> spec_split(s.push(c), sep) == spec_split(s, sep).push(Seq::<char>::empty()),
        c != sep ==> spec_split(s.push(c), sep) == spec_split(s, sep).drop_last().push(
            spec_split(s, sep).last().push(c),
        ),
    decreases s.len(),
{
    lemma_split_nonempty(s, sep);
    if s.len() == 0 {
        assert(s =~= Seq::<char>::empty());
        assert(spec_split(Seq::<char>::empty(), sep) == seq![Seq::<char>::empty()]);
        assert(s.push(c).drop_first() =~= Seq::<char>::empty());
        assert(s.push(c)[0] == c);
        if c == sep {
            assert(spec_split(s.push(c), sep) =~= spec_split(s, sep).push(
                Seq::<char>::empty(),
            ));
        } else {
            assert(spec_split(s.push(c), sep) =~= spec_split(s, sep).drop_last().push(
                spec_split(s, sep).last().push(c),
            ));
        }
    } else {
        let t = s.drop_first();
        lemma_split_nonempty(t, sep);
        lemma_split_push(t, sep, c);
        assert(s.push(c)[0] == s[0]);
        assert(s.push(c).drop_first() =~= t.push(c));
        if s[0] == sep {
            if c == sep {
                assert(spec_split(s.push(c), sep) =~= spec_split(s, sep).push(
                    Seq::<char>::empty(),
                ));
            } else {
                assert(spec_split(t, sep).len() >= 1);
                assert(spec_split(s, sep).last() == spec_split(t, sep).last());
                assert(spec_split(s.push(c), sep) =~= spec_split(s, sep).drop_last().push(
                    spec_split(s, sep).last().push(c),
                ));
            }
        } else {
            let rest = spec_split(t, sep);
            if c == sep {
                assert(spec_split(t.push(c), sep) == rest.push(Seq::<char>::empty()));
                assert(rest.push(Seq::<char>::empty())[0] == rest[0]);
                assert(spec_split(s.push(c), sep) =~= spec_split(s, sep).push(
                    Seq::<char>::empty(),
                ));
            } else {
                if rest.len() == 1 {
                    assert(spec_split(t.push(c), sep)[0] == rest[0].push(c));
                    assert(spec_split(s, sep).last() == seq![s[0]] + rest[0]);
                    assert((seq![s[0]] + rest[0]).push(c) =~= seq![s[0]] + rest[0].push(c));
                    assert(spec_split(s.push(c), sep) =~= spec_split(s, sep).drop_last().push(
                        spec_split(s, sep).last().push(c),
                    ));
                } else {
                    assert(spec_split(t.push(c), sep)[0] == rest[0]);
                    assert(spec_split(s, sep).last() == rest.last());
                    assert(spec_split(s.push(c), sep) =~= spec_split(s, sep).drop_last().push(
                        spec_split(s, sep).last().push(c),
                    ));
                }
            }
        }
    }
}

/// The views of a sequence of strings.
pub open spec fn seq_views(v: Seq<String>) -> Seq<Seq<char>> {
    v.map_values(|p: String| p@)
}

/// Splits `s` at every occurrence of `sep`, as `str::split` does.
pub fn split_char(s: &str, sep: char) -> (r: Vec<String>)
    ensures
        seq_views(r@) == spec_split(s@, sep),
{
    let chars = to_chars(s);
    let mut pieces: Vec<String> = Vec::new();
    let mut cur = String::new();
    let mut i: usize = 0;
    while i < chars.len()
        invariant
            i <= chars@.len(),
            chars@ == s@,
            seq_views(pieces@).push(cur@) == spec_split(s@.subrange(0, i as int), sep),
        decreases chars@.len() - i,
    {
        let c = chars[i];
        proof {
            assert(s@.subrange(0, i + 1) =~= s@.subrange(0, i as int).push(s@[i as int]));
            lemma_split_push(s@.subrange(0, i as int), sep, s@[i as int]);
            lemma_split_nonempty(s@.subrange(0, i as int), sep);
        }
        if c == sep {
            let ghost old_pieces = pieces@;
            let ghost old_cur = cur@;
            pieces.push(cur);
            cur = String::new();
            proof {
                assert(seq_views(pieces@).push(cur@) =~= seq_views(old_pieces).push(
                    old_cur,
                ).push(Seq::<char>::empty()));
            }
        } else {
            let ghost old_pieces = pieces@;
            let ghost old_cur = cur@;
            push_char(&mut cur, c);
            proof {
                assert(seq_views(old_pieces).push(old_cur).drop_last() =~= seq_views(
                    old_pieces,
                ));
                assert(seq_views(pieces@).push(cur@) =~= seq_views(old_pieces).push(
                    old_cur.push(s@[i as int]),
                ));
            }
        }
        i = i + 1;
    }
    proof {
        assert(s@.subrange(0, s@.len() as int) =~= s@);
    }
    pieces.push(cur);
    pieces
}

/// The decimal digit character for a value below ten.
pub open spec fn spec_digit_char(d: int) -> char {
    if d == 0 {
        '0'
    } else if d == 1 {
        '1'
    } else if d == 2 {
        '2'
    } else if d == 3 {
        '3'
    } else if d == 4 {
        '4'
    } else if d == 5 {
        '5'
    } else if d == 6 {
        '6'
    } else if d == 7 {
        '7'
    } else if d == 8 {
        '8'
    } else {
        '9'
    }
}

/// The decimal notation of a natural number, most significant digit first.
pub open spec fn spec_u64_decimal(n: nat) -> Seq<char>
    decreases n,
{
    if n < 10 {
        seq![spec_digit_char(n as int)]
    } else {
        spec_u64_decimal(n / 10).push(spec_digit_char((n % 10) as int))
    }
}

/// The decimal notation of an integer: a minus sign in front of the
/// magnitude when negative.
pub open spec fn spec_i32_decimal(n: int) -> Seq<char> {
    if n < 0 {
        seq!['-'] + spec_u64_decimal((-n) as nat)
    } else {
        spec_u64_decimal(n as nat)
    }
}

fn digit_char(d: u64) -> (r: char)
    requires
        d < 10,
    ensures
        r == spec_digit_char(d as int),
{
    match d {
        0 => '0',
        1 => '1',
        2 => '2',
        3 => '3',
        4 => '4',
        5 => '5',
        6 => '6',
        7 => '7',
        8 => '8',
        _ => '9',
    }
}

fn push_u64_decimal(n: u64, out: &mut Vec<char>)
    ensures
        final(out)@ == old(out)@ + spec_u64_decimal(n as nat),
    decreases n,
{
    if n < 10 {
        out.push(digit_char(n));
        proof {
            assert(out@ =~= old(out)@ + spec_u64_decimal(n as nat));
        }
    } else {
        push_u64_decimal(n / 10, out);
        out.push(digit_char(n % 10));
        proof {
            assert(out@ =~= old(out)@ + spec_u64_decimal(n as nat));
        }
    }
}

/// The decimal notation of an exit code.
pub fn i32_to_string(n: i32) -> (r: String)
    ensures
        r@ == spec_i32_decimal(n as int),
{
    let mut out: Vec<char> = Vec::new();
    if n < 0 {
        out.push('-');
        let mag: u64 = (-(n as i64)) as u64;
        push_u64_decimal(mag, &mut out);
        proof {
            assert(out@ =~= spec_i32_decimal(n as int));
        }
    } else {
        push_u64_decimal(n as u64, &mut out);
        proof {
            assert(out@ =~= spec_i32_decimal(n as int));
        }
    }
    from_chars(&out)
}

/// The string with its trailing whitespace removed.
pub open spec fn spec_trim_end(s: Seq<char>) -> Seq<char>
    decreases s.len(),
{
    if s.len() > 0 && is_space_char(s.last()) {
        spec_trim_end(s.drop_last())
    } else {
        s
    }
}

/// Removes trailing whitespace, as `str::trim_end` does for ASCII text.
pub fn trim_end_ws(s: &str) -> (r: String)
    ensures
        r@ == spec_trim_end(s@),
{
    let chars = to_chars(s);
    let mut end: usize = chars.len();
    proof {
        assert(s@.subrange(0, s@.len() as int) =~= s@);
    }
    while end > 0 && is_space(chars[end - 1])
        invariant
            end <= chars@.len(),
            chars@ == s@,
            spec_trim_end(s@) == spec_trim_end(s@.subrange(0, end as int)),
        decreases end,
    {
        proof {
            assert(s@.subrange(0, end as int).drop_last() =~= s@.subrange(0, end - 1));
        }
        end = end - 1;
    }
    let mut kept: Vec<char> = Vec::new();
    let mut i: usize = 0;
    while i < end
        invariant
            i <= end,
            end <= chars@.len(),
            chars@ == s@,
            kept@ == s@.subrange(0, i as int),
        decreases end - i,
    {
        kept.push(chars[i]);
        proof {
            assert(kept@ =~= s@.subrange(0, i + 1));
        }
        i = i + 1;
    }
    proof {
        if end == 0 {
            assert(s@.subrange(0, 0) =~= Seq::<char>::empty());
        }
        assert(spec_trim_end(s@.subrange(0, end as int)) == s@.subrange(0, end as int));
    }
    from_chars(&kept)
}

/// A line as reported by `str::lines`: any single carriage return that
/// preceded the line feed is not part of the line.
pub open spec fn spec_strip_cr(l: Seq<char>) -> Seq<char> {
    if l.len() > 0 && l.last() == '\r' {
        l.drop_last()
    } else {
        l
    }
}

/// The lines of `s`, as `str::lines` reports them: pieces between line
/// feeds, each stripped of one trailing carriage return, without a final
/// empty piece when the text ends in a line feed.
pub open spec fn spec_lines(s: Seq<char>) -> Seq<Seq<char>> {
    let ps = spec_split(s, '\n');
    if ps.last().len() == 0 {
        ps.drop_last().map_values(|l: Seq<char>| spec_strip_cr(l))
    } else {
        ps.drop_last().map_values(|l: Seq<char>| spec_strip_cr(l)).push(ps.last())
    }
}

/// Removes one trailing carriage return, if present.
fn strip_cr(l: &String) -> (r: String)
    ensures
        r@ == spec_strip_cr(l@),
{
    let chars = to_chars(l.as_str());
    let n = chars.len();
    if n > 0 && chars[n - 1] == '\r' {
        let mut kept: Vec<char> = Vec::new();
        let mut i: usize = 0;
        while i < n - 1
            invariant
                n == l@.len(),
                n > 0,
                i <= n - 1,
                chars@ == l@,
                kept@ == l@.subrange(0, i as int),
            decreases n - 1 - i,
        {
            kept.push(chars[i]);
            proof {
                assert(kept@ =~= l@.subrange(0, i + 1));
            }
            i = i + 1;
        }
        proof {
            assert(l@.subrange(0, n - 1) =~= l@.drop_last());
        }
        from_chars(&kept)
    } else {
        let mut r = String::new();
        r.append(l.as_str());
        r
    }
}

/// The lines of `s`, as `str::lines` reports them.
pub fn split_lines(s: &str) -> (r: Vec<String>)
    ensures
        seq_views(r@) == spec_lines(s@),
{
    let pieces = split_char(s, '\n');
    proof {
        lemma_split_nonempty(s@, '\n');
    }
    let n = pieces.len();
    let last_empty = pieces[n - 1].as_str().unicode_len() == 0;
    let mut out: Vec<String> = Vec::new();
    let mut i: usize = 0;
    while i < n - 1
        invariant
            n == pieces@.len(),
            n >= 1,
            i <= n - 1,
            seq_views(pieces@) == spec_split(s@, '\n'),
            out@.len() == i,
            forall|j: int| 0 <= j < i ==> #[trigger] out@[j]@ == spec_strip_cr(pieces@[j]@),
        decreases n - 1 - i,
    {
        out.push(strip_cr(&pieces[i]));
        i = i + 1;
    }
    if !last_empty {
        let mut r = String::new();
        r.append(pieces[n - 1].as_str());
        out.push(r);
    }
    proof {
        let ps = spec_split(s@, '\n');
        if last_empty {
            assert(seq_views(out@) =~= ps.drop_last().map_values(
                |l: Seq<char>| spec_strip_cr(l),
            ));
        } else {
            assert(ps.last() == pieces@[n - 1]@);
            assert(seq_views(out@) =~= ps.drop_last().map_values(
                |l: Seq<char>| spec_strip_cr(l),
            ).push(ps.last()));
        }
    }
    out
}

} // verus!
