//! Text as sequences of characters: decimal numbers and byte conversions.
use vstd::prelude::*;
use vstd::string::*;
use vstd::utf8::*;

verus! {

/// The digit character of a number below ten.
pub open spec fn digit(d: nat) -> char {
    if d == 0 {
        '0'
    } else if d == 1 {
        '1'
    } else if d == 2 {
        '2'
    } else if d == 3 {
        '3'
    } else if d == 4 {
        '4'
    } else if d == 5 {
        '5'
    } else if d == 6 {
        '6'
    } else if d == 7 {
        '7'
    } else if d == 8 {
        '8'
    } else {
        '9'
    }
}

/// A number in decimal, without leading zeros.
pub open spec fn decimal(n: nat) -> Seq<char>
    decreases n,
{
    if n < 10 {
        seq![digit(n)]
    } else {
        decimal(n / 10).push(digit(n % 10))
    }
}

/// Append the digit of a number below ten.
fn push_digit(s: &mut String, d: u64)
    requires
        d < 10,
    ensures
        final(s)@ == old(s)@.push(digit(d as nat)),
{
    proof {
        reveal_strlit("0");
        reveal_strlit("1");
        reveal_strlit("2");
        reveal_strlit("3");
        reveal_strlit("4");
        reveal_strlit("5");
        reveal_strlit("6");
        reveal_strlit("7");
        reveal_strlit("8");
        reveal_strlit("9");
    }
    let t = if d == 0 {
        "0"
    } else if d == 1 {
        "1"
    } else if d == 2 {
        "2"
    } else if d == 3 {
        "3"
    } else if d == 4 {
        "4"
    } else if d == 5 {
        "5"
    } else if d == 6 {
        "6"
    } else if d == 7 {
        "7"
    } else if d == 8 {
        "8"
    } else {
        "9"
    };
    s.append(t);
    assert(s@ =~= old(s)@.push(digit(d as nat)));
}

/// Append a number in decimal.
pub fn push_decimal(s: &mut String, n: u64)
    ensures
        final(s)@ == old(s)@ + decimal(n as nat),
    decreases n,
{
    if n >= 10 {
        push_decimal(s, n / 10);
    }
    push_digit(s, n % 10);
    assert(s@ =~= old(s)@ + decimal(n as nat));
}

/// Bytes as characters with the same numbers.
pub open spec fn ascii_chars(bytes: Seq<u8>) -> Seq<char> {
    bytes.map_values(|b: u8| b as char)
}

/// Whether every byte is an ASCII character.
pub open spec fn all_ascii(bytes: Seq<u8>) -> bool {
    forall|i: int| 0 <= i < bytes.len() ==> bytes[i] < 128
}

/// ASCII bytes are valid text, character for character.
pub proof fn lemma_ascii_decode(bytes: Seq<u8>)
    requires
        all_ascii(bytes),
    ensures
        valid_utf8(bytes),
        decode_utf8(bytes) == ascii_chars(bytes),
        encode_utf8(ascii_chars(bytes)) == bytes,
{
    let chars = ascii_chars(bytes);
    assert forall|i: int| 0 <= i < chars.len() implies 0 <= #[trigger] chars[i] as u32 <= 127 by {
        assert(bytes[i] < 128);
    }
    is_ascii_chars_encode_utf8(chars);
    assert(encode_utf8(chars) =~= bytes);
    encode_utf8_decode_utf8(chars);
    encode_utf8_valid_utf8(chars);
}

/// Calls `String::from_utf8`: bytes that are valid UTF-8 give the text they
/// encode, all others give nothing.
#[verifier::external_body]
pub(crate) fn utf8_text(bytes: &[u8]) -> (r: Option<String>)
    ensures
        match r {
            Some(s) => valid_utf8(bytes@) && s@ == decode_utf8(bytes@),
            None => !valid_utf8(bytes@),
        },
{
    String::from_utf8(bytes.to_vec()).ok()
}

/// ASCII bytes as text.
pub fn ascii_text(bytes: &[u8]) -> (s: String)
    requires
        all_ascii(bytes@),
    ensures
        s@ == ascii_chars(bytes@),
{
    proof {
        lemma_ascii_decode(bytes@);
    }
    match utf8_text(bytes) {
        Some(s) => s,
        None => String::new(),
    }
}

/// The uppercase form of a text, as Unicode defines it.
pub uninterp spec fn uppercase(s: Seq<char>) -> Seq<char>;

/// The uppercase form of an ASCII character.
pub open spec fn ascii_upper(c: char) -> char {
    if 'a' as u32 <= c as u32 <= 'z' as u32 {
        (c as u32 - 32) as char
    } else {
        c
    }
}

/// An ASCII text with its letters in uppercase.
pub open spec fn ascii_uppercase(s: Seq<char>) -> Seq<char> {
    s.map_values(|c: char| ascii_upper(c))
}

/// Calls `str::to_uppercase`. The result depends on the text alone; on ASCII
/// text it changes the letters `a` to `z` and nothing else.
#[verifier::external_body]
pub(crate) fn to_upper(s: &str) -> (r: String)
    ensures
        r@ == uppercase(s@),
        is_ascii_chars(s@) ==> r@ == ascii_uppercase(s@),
{
    s.to_uppercase()
}

/// Whether two texts are the same.
pub fn same(a: &str, b: &str) -> (r: bool)
    ensures
        r == (a@ == b@),
{
    let n: usize = a.unicode_len();
    if n != b.unicode_len() {
        return false;
    }
    let mut i: usize = 0;
    while i < n
        invariant
            i <= n,
            n == a@.len(),
            n == b@.len(),
            forall|k: int| 0 <= k < i ==> a@[k] == b@[k],
        decreases n - i,
    {
        if a.get_char(i) != b.get_char(i) {
            return false;
        }
        i += 1;
    }
    assert(a@ =~= b@);
    true
}

/// Whether a character has the Unicode property White_Space.
pub open spec fn white_space(c: char) -> bool {
    let n = c as u32;
    ||| 0x9 <= n <= 0xd
    ||| n == 0x20
    ||| n == 0x85
    ||| n == 0xa0
    ||| n == 0x1680
    ||| 0x2000 <= n <= 0x200a
    ||| n == 0x2028
    ||| n == 0x2029
    ||| n == 0x202f
    ||| n == 0x205f
    ||| n == 0x3000
}

/// Whether a character is white space.
pub fn is_white_space(c: char) -> (r: bool)
    ensures
        r == white_space(c),
{
    let n: u32 = c as u32;
    (0x9 <= n && n <= 0xd) || n == 0x20 || n == 0x85 || n == 0xa0 || n == 0x1680 || (0x2000 <= n
        && n <= 0x200a) || n == 0x2028 || n == 0x2029 || n == 0x202f || n == 0x205f || n == 0x3000
}

/// A text without the white space at its front.
pub open spec fn trimmed_front(s: Seq<char>) -> Seq<char>
    decreases s.len(),
{
    if s.len() > 0 && white_space(s[0]) {
        trimmed_front(s.skip(1))
    } else {
        s
    }
}

/// A text without the white space at its end.
pub open spec fn trimmed_end(s: Seq<char>) -> Seq<char>
    decreases s.len(),
{
    if s.len() > 0 && white_space(s.last()) {
        trimmed_end(s.drop_last())
    } else {
        s
    }
}

/// A text without the white space around it.
pub open spec fn trimmed(s: Seq<char>) -> Seq<char> {
    trimmed_end(trimmed_front(s))
}

/// A text without the white space around it.
pub fn trim(s: &str) -> (t: &str)
    ensures
        t@ == trimmed(s@),
{
    let n: usize = s.unicode_len();
    let mut from: usize = 0;
    assert(s@.skip(0) =~= s@);
    while from < n && is_white_space(s.get_char(from))
        invariant
            from <= n,
            n == s@.len(),
            trimmed_front(s@) == trimmed_front(s@.skip(from as int)),
        decreases n - from,
    {
        assert(s@.skip(from as int).skip(1) =~= s@.skip(from + 1));
        from += 1;
    }
    let ghost front = s@.skip(from as int);
    assert(trimmed_front(s@) == front);
    let mut to: usize = n;
    assert(front.take(n - from) =~= front);
    while to > from && is_white_space(s.get_char(to - 1))
        invariant
            from <= to <= n,
            n == s@.len(),
            front == s@.skip(from as int),
            trimmed_end(front) == trimmed_end(front.take(to - from)),
        decreases to - from,
    {
        assert(front.take(to - from).drop_last() =~= front.take(to - from - 1));
        assert(front.take(to - from).last() == s@[to - 1]);
        to -= 1;
    }
    assert(front.take(to - from) =~= s@.subrange(from as int, to as int));
    s.substring_char(from, to)
}

/// What is left of a text starts with no white space.
proof fn lemma_trimmed_front(s: Seq<char>)
    ensures
        trimmed_front(s).len() > 0 ==> !white_space(trimmed_front(s)[0]),
    decreases s.len(),
{
    if s.len() > 0 && white_space(s[0]) {
        lemma_trimmed_front(s.skip(1));
    }
}

/// What is left of a text ends with no white space and starts as the text did.
proof fn lemma_trimmed_end(s: Seq<char>)
    ensures
        trimmed_end(s).len() > 0 ==> !white_space(trimmed_end(s).last()) && s.len() > 0
            && trimmed_end(s)[0] == s[0],
    decreases s.len(),
{
    if s.len() > 0 && white_space(s.last()) {
        lemma_trimmed_end(s.drop_last());
    }
}

/// Trimming a trimmed text changes nothing.
pub proof fn law_trim_is_idempotent(s: Seq<char>)
    ensures
        trimmed(trimmed(s)) == trimmed(s),
{
    lemma_trimmed_front(s);
    lemma_trimmed_end(trimmed_front(s));
}

/// Place of the first space at or after a place, or the length.
pub open spec fn space_from(s: Seq<char>, i: int) -> int
    decreases s.len() - i,
{
    if i >= s.len() || s[i] == ' ' {
        i
    } else {
        space_from(s, i + 1)
    }
}

/// A text cut at its spaces into at most `n` parts; the last one keeps what
/// spaces it has.
pub open spec fn split_at_spaces(s: Seq<char>, n: nat) -> Seq<Seq<char>>
    decreases n,
{
    let i = space_from(s, 0);
    if n <= 1 || i >= s.len() {
        seq![s]
    } else {
        seq![s.take(i)] + split_at_spaces(s.skip(i + 1), (n - 1) as nat)
    }
}

proof fn lemma_trimmed_front_ascii(s: Seq<char>)
    requires
        is_ascii_chars(s),
    ensures
        is_ascii_chars(trimmed_front(s)),
    decreases s.len(),
{
    if s.len() > 0 && white_space(s[0]) {
        lemma_trimmed_front_ascii(s.skip(1));
    }
}

proof fn lemma_trimmed_end_ascii(s: Seq<char>)
    requires
        is_ascii_chars(s),
    ensures
        is_ascii_chars(trimmed_end(s)),
    decreases s.len(),
{
    if s.len() > 0 && white_space(s.last()) {
        lemma_trimmed_end_ascii(s.drop_last());
    }
}

/// Trimming an ASCII text leaves an ASCII text.
pub proof fn lemma_trimmed_ascii(s: Seq<char>)
    requires
        is_ascii_chars(s),
    ensures
        is_ascii_chars(trimmed(s)),
{
    lemma_trimmed_front_ascii(s);
    lemma_trimmed_end_ascii(trimmed_front(s));
}

proof fn lemma_space_from(s: Seq<char>, i: int)
    requires
        0 <= i <= s.len(),
    ensures
        i <= space_from(s, i) <= s.len(),
    decreases s.len() - i,
{
    if i < s.len() && s[i] != ' ' {
        lemma_space_from(s, i + 1);
    }
}

/// The parts of an ASCII text are ASCII texts.
pub proof fn lemma_parts_ascii(s: Seq<char>, n: nat)
    requires
        is_ascii_chars(s),
    ensures
        forall|k: int|
            0 <= k < split_at_spaces(s, n).len() ==> is_ascii_chars(
                #[trigger] split_at_spaces(s, n)[k],
            ),
    decreases n,
{
    let i = space_from(s, 0);
    lemma_space_from(s, 0);
    if n > 1 && i < s.len() {
        let rest = split_at_spaces(s.skip(i + 1), (n - 1) as nat);
        lemma_parts_ascii(s.skip(i + 1), (n - 1) as nat);
        assert forall|k: int| 0 <= k < split_at_spaces(s, n).len() implies is_ascii_chars(
            #[trigger] split_at_spaces(s, n)[k],
        ) by {
            if k > 0 {
                assert(split_at_spaces(s, n)[k] == rest[k - 1]);
            }
        }
    }
}

/// Texts as sequences.
pub open spec fn texts(parts: Seq<String>) -> Seq<Seq<char>> {
    parts.map_values(|p: String| p@)
}

/// Cut a text at its spaces into at most `n` parts.
pub fn split_words(s: &str, n: usize) -> (parts: Vec<String>)
    requires
        n >= 1,
    ensures
        texts(parts@) == split_at_spaces(s@, n as nat),
{
    let len: usize = s.unicode_len();
    let mut parts: Vec<String> = Vec::new();
    let mut from: usize = 0;
    let mut left: usize = n;
    assert(s@.skip(0) =~= s@);
    assert(texts(parts@) + split_at_spaces(s@, n as nat) =~= split_at_spaces(s@, n as nat));
    while left > 1
        invariant_except_break
            from <= len,
            len == s@.len(),
            1 <= left <= n,
            texts(parts@) + split_at_spaces(s@.skip(from as int), left as nat) == split_at_spaces(
                s@,
                n as nat,
            ),
        ensures
            from <= len,
            len == s@.len(),
            texts(parts@).push(s@.skip(from as int)) == split_at_spaces(s@, n as nat),
        decreases left,
    {
        let ghost rest = s@.skip(from as int);
        let mut at: usize = from;
        while at < len && s.get_char(at) != ' '
            invariant
                from <= at <= len,
                len == s@.len(),
                rest == s@.skip(from as int),
                space_from(rest, 0) == space_from(rest, at - from),
            decreases len - at,
        {
            assert(rest[at - from] == s@[at as int]);
            at += 1;
        }
        proof {
            if at < len {
                assert(rest[at - from] == s@[at as int]);
            }
            assert(space_from(rest, 0) == at - from);
        }
        if at == len {
            assert(texts(parts@) + seq![rest] =~= texts(parts@).push(rest));
            break;
        }
        let word = String::from_str(s.substring_char(from, at));
        let ghost before = texts(parts@);
        parts.push(word);
        proof {
            let tail = split_at_spaces(s@.skip(at + 1), (left - 1) as nat);
            assert(rest.take(at - from) =~= s@.subrange(from as int, at as int));
            assert(rest.skip(at - from + 1) =~= s@.skip(at + 1));
            assert(texts(parts@) =~= before.push(word@));
            assert(texts(parts@) + tail =~= before + (seq![word@] + tail));
        }
        from = at + 1;
        left -= 1;
        proof {
            if left == 1 {
                assert(texts(parts@) + seq![s@.skip(from as int)] =~= texts(parts@).push(
                    s@.skip(from as int),
                ));
            }
        }
    }
    let ghost before = texts(parts@);
    let last = String::from_str(s.substring_char(from, len));
    parts.push(last);
    proof {
        assert(s@.subrange(from as int, len as int) =~= s@.skip(from as int));
        assert(texts(parts@) =~= before.push(s@.skip(from as int)));
    }
    parts
}

/// A number in decimal with a minus sign where it is negative.
pub open spec fn signed_decimal(n: int) -> Seq<char> {
    if n < 0 {
        seq!['-'] + decimal((-n) as nat)
    } else {
        decimal(n as nat)
    }
}

/// Append a number in decimal, with a minus sign where it is negative.
pub fn push_signed_decimal(s: &mut String, n: i64)
    requires
        n > i64::MIN,
    ensures
        final(s)@ == old(s)@ + signed_decimal(n as int),
{
    if n < 0 {
        proof {
            reveal_strlit("-");
        }
        s.append("-");
        assert("-"@ =~= seq!['-']);
        push_decimal(s, (-n) as u64);
        assert(s@ =~= old(s)@ + signed_decimal(n as int));
    } else {
        push_decimal(s, n as u64);
    }
}

/// A number in decimal: digits alone, the first of them no zero unless the
/// number is zero, and worth the number when read from the left.
pub proof fn law_decimal(n: nat)
    ensures
        decimal(n).len() > 0,
        forall|i: int| 0 <= i < decimal(n).len() ==> '0' <= #[trigger] decimal(n)[i] <= '9',
        (decimal(n)[0] == '0') == (n == 0),
        decimal(n).fold_left(0int, |v: int, c: char| 10 * v + (c as int - '0' as int)) == n,
    decreases n,
{
    let s = decimal(n);
    let f = |v: int, c: char| 10 * v + (c as int - '0' as int);
    if n < 10 {
        reveal_with_fuel(Seq::fold_left, 2);
        assert(s.drop_last() =~= Seq::empty());
        assert(s.last() as int - '0' as int == n);
    } else {
        law_decimal(n / 10);
        let front = decimal(n / 10);
        assert(s.drop_last() =~= front);
        assert(s.last() as int - '0' as int == n % 10);
        assert(s.fold_left(0int, f) == f(front.fold_left(0int, f), s.last()));
        assert forall|i: int| 0 <= i < s.len() implies '0' <= #[trigger] s[i] <= '9' by {
            if i < front.len() {
                assert(s[i] == front[i]);
            }
        }
        assert(s[0] == front[0]);
    }
}

/// A negative number is a minus sign and the number without its sign.
pub proof fn law_signed_decimal(n: nat)
    ensures
        signed_decimal(n as int) == decimal(n),
        n > 0 ==> signed_decimal(-n) == seq!['-'] + decimal(n),
{
}

/// The characters that are white space.
pub proof fn law_white_space(c: char)
    ensures
        white_space(c) == (c == '\t' || c == '\n' || c == '\u{b}' || c == '\u{c}' || c == '\r' || c
            == ' ' || c == '\u{85}' || c == '\u{a0}' || c == '\u{1680}' || '\u{2000}' <= c
            <= '\u{200a}' || c == '\u{2028}' || c == '\u{2029}' || c == '\u{202f}' || c
            == '\u{205f}' || c == '\u{3000}'),
{
}

/// Trimming takes away the white space around a text and nothing else.
pub proof fn law_trim(s: Seq<char>, from: int, to: int)
    requires
        0 <= from <= to <= s.len(),
        forall|i: int| 0 <= i < from ==> white_space(#[trigger] s[i]),
        forall|i: int| to <= i < s.len() ==> white_space(#[trigger] s[i]),
        from < to ==> !white_space(s[from]) && !white_space(s[to - 1]),
    ensures
        trimmed(s) == s.subrange(from, to),
{
    if from == to {
        lemma_all_white(s);
        assert(s.subrange(from, to) =~= seq![]);
    } else {
        lemma_front_is_cut(s, from);
        let rest = s.skip(from);
        assert forall|i: int| to - from <= i < rest.len() implies white_space(
            #[trigger] rest[i],
        ) by {
            assert(rest[i] == s[i + from]);
        }
        lemma_end_is_cut(rest, to - from);
        assert(rest.take(to - from) =~= s.subrange(from, to));
    }
}

proof fn lemma_all_white(s: Seq<char>)
    requires
        forall|i: int| 0 <= i < s.len() ==> white_space(#[trigger] s[i]),
    ensures
        trimmed(s) == Seq::<char>::empty(),
    decreases s.len(),
{
    if s.len() > 0 {
        let rest = s.skip(1);
        assert forall|i: int| 0 <= i < rest.len() implies white_space(#[trigger] rest[i]) by {
            assert(rest[i] == s[i + 1]);
        }
        lemma_all_white(rest);
        assert(white_space(s[0]));
    } else {
        assert(s =~= seq![]);
    }
}

proof fn lemma_front_is_cut(s: Seq<char>, from: int)
    requires
        0 <= from < s.len(),
        forall|i: int| 0 <= i < from ==> white_space(#[trigger] s[i]),
        !white_space(s[from]),
    ensures
        trimmed_front(s) == s.skip(from),
    decreases from,
{
    if from == 0 {
        assert(s.skip(0) =~= s);
    } else {
        let rest = s.skip(1);
        assert forall|i: int| 0 <= i < from - 1 implies white_space(#[trigger] rest[i]) by {
            assert(rest[i] == s[i + 1]);
        }
        assert(white_space(s[0]));
        lemma_front_is_cut(rest, from - 1);
        assert(rest.skip(from - 1) =~= s.skip(from));
    }
}

proof fn lemma_end_is_cut(s: Seq<char>, to: int)
    requires
        0 < to <= s.len(),
        forall|i: int| to <= i < s.len() ==> white_space(#[trigger] s[i]),
        !white_space(s[to - 1]),
    ensures
        trimmed_end(s) == s.take(to),
    decreases s.len(),
{
    if to == s.len() {
        assert(s.take(to) =~= s);
    } else {
        lemma_end_is_cut(s.drop_last(), to);
        assert(s.drop_last().take(to) =~= s.take(to));
        assert(white_space(s[s.len() - 1]));
    }
}

/// Cutting at spaces: a text whose first space comes after `word` is cut there,
/// as long as more than one part is allowed; a text without a space, or one
/// that is to stay whole, is its only part.
pub proof fn law_cut_at_spaces(word: Seq<char>, rest: Seq<char>, s: Seq<char>, n: nat)
    requires
        forall|i: int| 0 <= i < word.len() ==> #[trigger] word[i] != ' ',
        n >= 1,
    ensures
        split_at_spaces(s, 1) == seq![s],
        split_at_spaces(word, n) == seq![word],
        n > 1 ==> split_at_spaces(word + seq![' '] + rest, n) == seq![word] + split_at_spaces(
            rest,
            (n - 1) as nat,
        ),
{
    lemma_no_space(word, word, 0);
    let all = word + seq![' '] + rest;
    lemma_no_space(all, word, 0);
    assert(all[word.len() as int] == ' ');
    assert(all.take(word.len() as int) =~= word);
    assert(all.skip(word.len() as int + 1) =~= rest);
}

proof fn lemma_no_space(s: Seq<char>, word: Seq<char>, i: int)
    requires
        0 <= i <= word.len() <= s.len(),
        forall|k: int| 0 <= k < word.len() ==> #[trigger] word[k] != ' ',
        forall|k: int| 0 <= k < word.len() ==> #[trigger] s[k] == word[k],
        word.len() < s.len() ==> s[word.len() as int] == ' ',
    ensures
        space_from(s, i) == word.len(),
    decreases word.len() - i,
{
    if i < word.len() {
        assert(s[i] == word[i]);
        lemma_no_space(s, word, i + 1);
    }
}

} // verus!
