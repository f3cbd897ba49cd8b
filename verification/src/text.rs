//! Text helpers shared by the node kinds: joining, splitting, line parsing
//! and number formatting.
use vstd::prelude::*;
use vstd::string::*;

verus! {

broadcast use vstd::string::group_string_axioms;

/// The views of a sequence of strings.
pub open spec fn views(v: Seq<String>) -> Seq<Seq<char>> {
    v.map_values(|s: String| s@)
}

/// `parts` joined with `sep` between consecutive parts.
pub open spec fn join_spec(parts: Seq<Seq<char>>, sep: Seq<char>) -> Seq<char>
    decreases parts.len(),
{
    if parts.len() == 0 {
        Seq::empty()
    } else if parts.len() == 1 {
        parts[0]
    } else {
        join_spec(parts.drop_last(), sep) + sep + parts.last()
    }
}

/// The pieces of `s` between occurrences of `c`, as `str::split` yields them:
/// one more piece than there are separators, empty pieces included.
pub open spec fn split_spec(s: Seq<char>, c: char) -> Seq<Seq<char>>
    decreases s.len(),
{
    if s.len() == 0 {
        seq![Seq::<char>::empty()]
    } else {
        let rest = split_spec(s.drop_last(), c);
        if s.last() == c {
            rest.push(Seq::empty())
        } else {
            rest.drop_last().push(rest.last().push(s.last()))
        }
    }
}

/// `s` without one trailing `c`, if it ends with one.
pub open spec fn strip_last(s: Seq<char>, c: char) -> Seq<char> {
    if s.len() > 0 && s.last() == c {
        s.drop_last()
    } else {
        s
    }
}

/// The lines of `s`, as `str::lines` yields them: split at `'\n'`, a `'\r'`
/// right before a `'\n'` removed, and no line after a final `'\n'`.
pub open spec fn lines_spec(s: Seq<char>) -> Seq<Seq<char>> {
    let pieces = split_spec(s, '\n');
    let kept = if pieces.last().len() == 0 {
        pieces.drop_last()
    } else {
        pieces
    };
    Seq::new(
        kept.len(),
        |i: int|
            if i < pieces.len() - 1 {
                strip_last(kept[i], '\r')
            } else {
                kept[i]
            },
    )
}

/// Index of the first `c` in `s`, if any.
pub open spec fn first_index(s: Seq<char>, c: char) -> Option<int> {
    if exists|i: int| 0 <= i < s.len() && s[i] == c {
        Some(choose|i: int| 0 <= i < s.len() && s[i] == c && forall|j: int| 0 <= j < i ==> s[j] != c)
    } else {
        None
    }
}

/// The decimal digits of `n`, most significant first, without leading zeros.
pub open spec fn decimal_spec(n: nat) -> Seq<char>
    decreases n,
{
    if n < 10 {
        seq![digit_char(n)]
    } else {
        decimal_spec(n / 10).push(digit_char(n % 10))
    }
}

/// The character of a hexadecimal digit, lower case.
pub open spec fn digit_char(d: nat) -> char {
    if d < 10 {
        (48 + d) as char
    } else {
        (87 + d) as char
    }
}

/// `String::push`: appends one character.
#[verifier::external_body]
pub(crate) fn push_char(s: &mut String, c: char)
    ensures
        final(s)@ == old(s)@.push(c),
{
    s.push(c)
}

/// The characters of `s`, in order.
pub fn chars_of(s: &str) -> (res: Vec<char>)
    ensures
        res@ == s@,
{
    let mut res: Vec<char> = Vec::new();
    for c in it: s.chars()
        invariant
            res@ == it.seq().take(it.index() as int),
            it.seq() == s@,
    {
        res.push(c);
    }
    res
}

proof fn lemma_join_push(parts: Seq<Seq<char>>, sep: Seq<char>, x: char)
    requires
        parts.len() > 0,
    ensures
        join_spec(parts.drop_last().push(parts.last().push(x)), sep) == join_spec(parts, sep).push(x),
{
    let q = parts.drop_last().push(parts.last().push(x));
    assert(q.drop_last() =~= parts.drop_last());
    if parts.len() > 1 {
        assert(join_spec(q, sep) =~= join_spec(parts, sep).push(x));
    } else {
        assert(join_spec(q, sep) =~= join_spec(parts, sep).push(x));
    }
}

/// `parts` joined with `sep`, as `[String]::join` does.
pub fn join(parts: &Vec<String>, sep: &str) -> (res: String)
    ensures
        res@ == join_spec(views(parts@), sep@),
{
    let mut res = String::new();
    let ghost vs = views(parts@);
    for i in 0..parts.len()
        invariant
            vs == views(parts@),
            res@ == join_spec(vs.take(i as int), sep@),
    {
        assert(vs.take(i + 1).drop_last() =~= vs.take(i as int));
        if i > 0 {
            res.append(sep);
        }
        res.append(parts[i].as_str());
    }
    assert(vs.take(parts.len() as int) =~= vs);
    res
}

/// The pieces of `s` between occurrences of `c`, as `str::split` yields them.
pub fn split(s: &str, c: char) -> (res: Vec<String>)
    ensures
        views(res@) == split_spec(s@, c),
{
    let chars = chars_of(s);
    let mut res: Vec<String> = Vec::new();
    let mut cur = String::new();
    for i in 0..chars.len()
        invariant
            chars@ == s@,
            views(res@).push(cur@) == split_spec(s@.take(i as int), c),
    {
        let ghost prev = s@.take(i as int);
        assert(s@.take(i + 1).drop_last() =~= prev);
        let x = chars[i];
        if x == c {
            let piece = cur;
            res.push(piece);
            cur = String::new();
            assert(views(res@).push(cur@) =~= split_spec(prev, c).push(Seq::empty()));
        } else {
            let ghost before = views(res@);
            push_char(&mut cur, x);
            assert(views(res@).push(cur@) =~= split_spec(prev, c).drop_last().push(
                split_spec(prev, c).last().push(x),
            ));
        }
    }
    assert(s@.take(chars.len() as int) =~= s@);
    res.push(cur);
    assert(views(res@) =~= split_spec(s@, c));
    res
}


/// The text before and after the first `c` in `s`, as `str::split_once` gives them.
pub open spec fn split_once_spec(s: Seq<char>, c: char) -> Option<(Seq<char>, Seq<char>)> {
    match first_index(s, c) {
        Some(i) => Some((s.take(i), s.skip(i + 1))),
        None => None,
    }
}

/// The characters `chars[lo..hi]` as a string.
pub fn from_chars(chars: &Vec<char>, lo: usize, hi: usize) -> (res: String)
    requires
        lo <= hi <= chars.len(),
    ensures
        res@ == chars@.subrange(lo as int, hi as int),
{
    let mut res = String::new();
    for i in lo..hi
        invariant
            hi <= chars.len(),
            res@ == chars@.subrange(lo as int, i as int),
    {
        push_char(&mut res, chars[i]);
        assert(res@ =~= chars@.subrange(lo as int, i + 1));
    }
    res
}

/// The text before and after the first `c` in `s`, as `str::split_once` gives them.
pub fn split_once(s: &str, c: char) -> (res: Option<(String, String)>)
    ensures
        match (res, split_once_spec(s@, c)) {
            (Some((a, b)), Some((sa, sb))) => a@ == sa && b@ == sb,
            (None, None) => true,
            _ => false,
        },
{
    let chars = chars_of(s);
    let mut i: usize = 0;
    while i < chars.len()
        invariant
            chars@ == s@,
            i <= chars.len(),
            forall|j: int| 0 <= j < i ==> chars@[j] != c,
        decreases chars.len() - i,
    {
        if chars[i] == c {
            let before = from_chars(&chars, 0, i);
            let after = from_chars(&chars, i + 1, chars.len());
            proof {
                let k = choose|k: int| 0 <= k < s@.len() && s@[k] == c && forall|j: int| 0 <= j < k ==> s@[j] != c;
                assert(0 <= i < s@.len() && s@[i as int] == c && forall|j: int| 0 <= j < i ==> s@[j] != c);
                assert(k == i);
                assert(before@ =~= s@.take(i as int));
                assert(after@ =~= s@.skip(i + 1));
            }
            return Some((before, after));
        }
        i = i + 1;
    }
    None
}

/// `s` without a trailing `'\r'`, if it has one.
fn strip_carriage_return(s: &String) -> (res: String)
    ensures
        res@ == strip_last(s@, '\r'),
{
    let chars = chars_of(s.as_str());
    if chars.len() > 0 && chars[chars.len() - 1] == '\r' {
        let res = from_chars(&chars, 0, chars.len() - 1);
        assert(res@ =~= s@.drop_last());
        res
    } else {
        from_chars(&chars, 0, chars.len())
    }
}

/// The lines of `s`, as `str::lines` yields them.
pub fn lines(s: &str) -> (res: Vec<String>)
    ensures
        views(res@) == lines_spec(s@),
{
    let pieces = split(s, '\n');
    proof {
        lemma_split_nonempty(s@, '\n');
    }
    let n = pieces.len();
    let kept = if pieces[n - 1].as_str().is_empty() { n - 1 } else { n };
    let mut res: Vec<String> = Vec::new();
    for i in 0..kept
        invariant
            views(pieces@) == split_spec(s@, '\n'),
            n == pieces.len(),
            n > 0,
            kept <= n,
            kept == (if split_spec(s@, '\n').last().len() == 0 { n - 1 } else { n as int }),
            res.len() == i,
            forall|j: int| 0 <= j < i ==> #[trigger] views(res@)[j] == lines_spec(s@)[j],
    {
        let line = if i < n - 1 {
            strip_carriage_return(&pieces[i])
        } else {
            from_chars(&chars_of(pieces[i].as_str()), 0, chars_of(pieces[i].as_str()).len())
        };
        let ghost old_res = res@;
        res.push(line);
        proof {
            let pcs = split_spec(s@, '\n');
            assert(views(pieces@)[i as int] == pieces@[i as int]@);
            let kept_seq = if pcs.last().len() == 0 { pcs.drop_last() } else { pcs };
            assert(kept_seq[i as int] == pcs[i as int]);
            assert(lines_spec(s@)[i as int] == (if i < n - 1 { strip_last(pcs[i as int], '\r') } else { pcs[i as int] }));
            assert(views(res@)[i as int] == res@[i as int]@);
            assert forall|j: int| 0 <= j < i + 1 implies #[trigger] views(res@)[j] == lines_spec(s@)[j] by {
                if j < i {
                    assert(res@[j] == old_res[j]);
                    assert(views(old_res)[j] == lines_spec(s@)[j]);
                }
            }
        }
    }
    assert(views(res@) =~= lines_spec(s@));
    res
}

/// `split_spec` always yields at least one piece.
pub proof fn lemma_split_nonempty(s: Seq<char>, c: char)
    ensures
        split_spec(s, c).len() >= 1,
    decreases s.len(),
{
    if s.len() > 0 {
        lemma_split_nonempty(s.drop_last(), c);
    }
}


/// Lower-case hexadecimal encoding of `bytes`, two digits per byte.
pub open spec fn hex_spec(bytes: Seq<u8>) -> Seq<char>
    decreases bytes.len(),
{
    if bytes.len() == 0 {
        Seq::empty()
    } else {
        hex_spec(bytes.drop_last()) + seq![
            digit_char((bytes.last() / 16) as nat),
            digit_char((bytes.last() % 16) as nat),
        ]
    }
}

/// `base16::encode_lower`: each byte becomes two lower-case hexadecimal
/// digits, high nibble first. It panics when the doubled length would not fit
/// in a `usize`, which `requires` rules out.
#[verifier::external_body]
pub(crate) fn encode_lower(bytes: &[u8]) -> (res: String)
    requires
        bytes@.len() * 2 <= usize::MAX,
    ensures
        res@ == hex_spec(bytes@),
{
    base16::encode_lower(bytes)
}

/// The character of the decimal digit `d`.
fn digit(d: u64) -> (c: char)
    requires
        d < 10,
    ensures
        c == digit_char(d as nat),
{
    let b: u8 = 48 + d as u8;
    b as char
}

/// `n` in decimal, as `format!("{}", n)` writes it.
pub fn decimal(n: u64) -> (res: String)
    ensures
        res@ == decimal_spec(n as nat),
    decreases n,
{
    if n < 10 {
        let mut res = String::new();
        push_char(&mut res, digit(n));
        assert(res@ =~= seq![digit_char(n as nat)]);
        res
    } else {
        let mut res = decimal(n / 10);
        push_char(&mut res, digit(n % 10));
        res
    }
}


/// Joining the pieces of `s` split at `c`, with `c` between them, gives `s`
/// back.
pub proof fn lemma_join_split(s: Seq<char>, c: char)
    ensures
        join_spec(split_spec(s, c), seq![c]) == s,
    decreases s.len(),
{
    if s.len() > 0 {
        let prev = s.drop_last();
        lemma_join_split(prev, c);
        lemma_split_nonempty(prev, c);
        let rest = split_spec(prev, c);
        if s.last() == c {
            assert(split_spec(s, c).drop_last() =~= rest);
            assert(join_spec(split_spec(s, c), seq![c]) =~= s);
        } else {
            lemma_join_push(rest, seq![c], s.last());
            assert(join_spec(split_spec(s, c), seq![c]) =~= s);
        }
    }
}

/// Joining puts `sep` between every two consecutive parts, whatever they
/// hold: joining no parts gives nothing, one part gives that part, and one
/// more part after at least one gives the join so far, `sep`, and that part.
pub proof fn lemma_join_append(parts: Seq<Seq<char>>, part: Seq<char>, sep: Seq<char>)
    ensures
        join_spec(Seq::<Seq<char>>::empty(), sep) == Seq::<char>::empty(),
        join_spec(seq![part], sep) == part,
        parts.len() > 0 ==> join_spec(parts.push(part), sep) == join_spec(parts, sep) + sep + part,
{
    assert(parts.push(part).drop_last() =~= parts);
    assert(parts.push(part).last() == part);
}

/// Splitting once at `c` gives the text before the first `c`, which holds no
/// `c`, and the text after it, which together with `c` make up `s`; there is
/// nothing to split when `s` holds no `c`.
pub proof fn lemma_split_once_parts(s: Seq<char>, c: char)
    ensures
        split_once_spec(s, c) matches Some((a, b)) ==> a + seq![c] + b == s && forall|j: int|
            0 <= j < a.len() ==> #[trigger] a[j] != c,
        split_once_spec(s, c) is None <==> forall|j: int| 0 <= j < s.len() ==> #[trigger] s[j] != c,
{
    if exists|i: int| 0 <= i < s.len() && s[i] == c {
        let w = choose|i: int| 0 <= i < s.len() && s[i] == c;
        lemma_first_occurrence(s, c, w);
        let i = first_index(s, c)->0;
        assert(0 <= i < s.len() && s[i] == c && forall|j: int| 0 <= j < i ==> s[j] != c);
        assert(s.take(i) + seq![c] + s.skip(i + 1) =~= s);
    }
}

/// An occurrence of `c` at `k` means a first occurrence of `c` at or before it.
proof fn lemma_first_occurrence(s: Seq<char>, c: char, k: int)
    requires
        0 <= k < s.len(),
        s[k] == c,
    ensures
        exists|i: int| 0 <= i < s.len() && s[i] == c && forall|j: int| 0 <= j < i ==> s[j] != c,
    decreases k,
{
    if exists|j: int| 0 <= j < k && s[j] == c {
        let j = choose|j: int| 0 <= j < k && s[j] == c;
        lemma_first_occurrence(s, c, j);
    } else {
        assert(forall|j: int| 0 <= j < k ==> s[j] != c);
    }
}

/// No line of `s` holds a line break.
pub proof fn lemma_lines_lack_newline(s: Seq<char>)
    ensures
        forall|i: int, j: int|
            0 <= i < lines_spec(s).len() && 0 <= j < lines_spec(s)[i].len() ==> #[trigger] lines_spec(s)[i][j]
                != '\n',
{
    lemma_split_pieces_lack_separator(s, '\n');
    lemma_split_nonempty(s, '\n');
    let pieces = split_spec(s, '\n');
    let kept = if pieces.last().len() == 0 {
        pieces.drop_last()
    } else {
        pieces
    };
    assert forall|i: int, j: int|
        0 <= i < lines_spec(s).len() && 0 <= j < lines_spec(s)[i].len() implies #[trigger] lines_spec(s)[i][j]
            != '\n' by {
        assert(kept[i] == pieces[i]);
        if i < pieces.len() - 1 {
            let l = strip_last(pieces[i], '\r');
            assert(l[j] == pieces[i][j]);
        }
    }
}

/// No piece of `s` split at `c` contains `c`.
pub proof fn lemma_split_pieces_lack_separator(s: Seq<char>, c: char)
    ensures
        forall|i: int, j: int|
            0 <= i < split_spec(s, c).len() && 0 <= j < split_spec(s, c)[i].len()
                ==> split_spec(s, c)[i][j] != c,
    decreases s.len(),
{
    if s.len() > 0 {
        lemma_split_pieces_lack_separator(s.drop_last(), c);
        lemma_split_nonempty(s.drop_last(), c);
    }
}


/// The number that a string of decimal digits denotes.
pub open spec fn digits_value(s: Seq<char>) -> int
    decreases s.len(),
{
    if s.len() == 0 {
        0
    } else {
        digits_value(s.drop_last()) * 10 + (s.last() as int - 48)
    }
}

/// The decimal digits of `n` denote `n`.
pub proof fn lemma_decimal_value(n: nat)
    ensures
        digits_value(decimal_spec(n)) == n,
    decreases n,
{
    if n < 10 {
        let s = decimal_spec(n);
        assert(s.drop_last() =~= Seq::<char>::empty());
        assert(digit_char(n) as int == 48 + n);
        assert(s.last() == digit_char(n));
        assert(digits_value(s) == digits_value(s.drop_last()) * 10 + (s.last() as int - 48));
    } else {
        lemma_decimal_value(n / 10);
        let s = decimal_spec(n);
        assert(s.drop_last() =~= decimal_spec(n / 10));
        assert(digit_char(n % 10) as int == 48 + n % 10);
        assert(n == (n / 10) * 10 + n % 10);
        assert(s.last() == digit_char(n % 10));
        assert(digits_value(s) == digits_value(s.drop_last()) * 10 + (s.last() as int - 48));
        assert(digits_value(s) == (n / 10) * 10 + n % 10);
    }
}

/// Different numbers have different decimal digits.
pub proof fn lemma_decimal_injective(n: nat, m: nat)
    requires
        n != m,
    ensures
        decimal_spec(n) != decimal_spec(m),
{
    lemma_decimal_value(n);
    lemma_decimal_value(m);
}

} // verus!
