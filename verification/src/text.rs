//! Text shaping: decimal numbers and one-line previews of clipboard text.

use vstd::prelude::*;

verus! {

/// Appends one character to a string.
///
/// Trusted: `String::push`, whose documentation says it appends the given char
/// to the end of the string.
#[verifier::external_body]
pub(crate) fn push_char(s: &mut String, c: char)
    ensures
        final(s)@ == old(s)@.push(c),
{
    s.push(c);
}

/// The character for decimal digit `d`.
pub open spec fn digit_char(d: nat) -> char {
    if d == 0 { '0' } else if d == 1 { '1' } else if d == 2 { '2' } else if d == 3 { '3' }
    else if d == 4 { '4' } else if d == 5 { '5' } else if d == 6 { '6' } else if d == 7 { '7' }
    else if d == 8 { '8' } else { '9' }
}

/// Decimal notation of `n`, without leading zeros.
pub open spec fn decimal(n: nat) -> Seq<char>
    decreases n,
{
    if n < 10 {
        seq![digit_char(n)]
    } else {
        decimal(n / 10).push(digit_char(n % 10))
    }
}

fn digit(d: u64) -> (c: char)
    requires
        d < 10,
    ensures
        c == digit_char(d as nat),
{
    if d == 0 { '0' } else if d == 1 { '1' } else if d == 2 { '2' } else if d == 3 { '3' }
    else if d == 4 { '4' } else if d == 5 { '5' } else if d == 6 { '6' } else if d == 7 { '7' }
    else if d == 8 { '8' } else { '9' }
}

/// Appends the decimal notation of `n`.
pub fn push_decimal(s: &mut String, n: u64)
    ensures
        final(s)@ == old(s)@ + decimal(n as nat),
    decreases n,
{
    if n >= 10 {
        push_decimal(s, n / 10);
    }
    push_char(s, digit(n % 10));
    proof {
        if n < 10 {
            assert(old(s)@ + decimal(n as nat) =~= old(s)@.push(digit_char(n as nat)));
        } else {
            assert((old(s)@ + decimal((n / 10) as nat)).push(digit_char((n % 10) as nat))
                =~= old(s)@ + decimal(n as nat));
        }
    }
}

/// The ellipsis that ends a shortened preview.
pub open spec fn ellipsis() -> char {
    '\u{2026}'
}

/// A line break or a tab becomes a space; any other character stays.
pub open spec fn flatten_char(c: char) -> char {
    if c == '\n' || c == '\t' { ' ' } else { c }
}

/// The preview of `content` on one line: its characters with line breaks and
/// tabs turned into spaces, cut after `max_chars` characters and ended by an
/// ellipsis when it is longer than that.
pub open spec fn preview(content: Seq<char>, max_chars: nat) -> Seq<char> {
    if content.len() > max_chars {
        content.subrange(0, max_chars as int).map_values(|c: char| flatten_char(c)).push(ellipsis())
    } else {
        content.map_values(|c: char| flatten_char(c))
    }
}

/// A one-line preview of clipboard text: at most `max_chars` characters and an
/// ellipsis, with no line break or tab.
pub fn truncate_content(content: &str, max_chars: usize) -> (r: String)
    ensures
        r@ == preview(content@, max_chars as nat),
        forall|i: int| 0 <= i < r@.len() ==> #[trigger] r@[i] != '\n' && r@[i] != '\t',
{
    let mut chars: Vec<char> = Vec::new();
    for c in it: content.chars()
        invariant
            it.seq() == content@,
            chars@ == content@.subrange(0, it.index() as int),
    {
        chars.push(c);
    }
    proof {
        assert(chars@ =~= content@);
    }
    let n = chars.len();
    let shown = if n > max_chars { max_chars } else { n };
    let mut out = String::new();
    let mut i: usize = 0;
    while i < shown
        invariant
            n == chars@.len(),
            chars@ == content@,
            shown <= n,
            i <= shown,
            out@ == content@.subrange(0, i as int).map_values(|c: char| flatten_char(c)),
        decreases shown - i,
    {
        let c = chars[i];
        let f = if c == '\n' || c == '\t' { ' ' } else { c };
        push_char(&mut out, f);
        proof {
            assert(out@ =~= content@.subrange(0, i + 1).map_values(|c: char| flatten_char(c)));
        }
        i = i + 1;
    }
    if n > max_chars {
        push_char(&mut out, '\u{2026}');
    } else {
        proof {
            assert(content@.subrange(0, n as int) =~= content@);
        }
    }
    proof {
        law_preview_is_one_short_line(content@, max_chars as nat);
    }
    out
}

/// A preview never runs past `max_chars` characters and an ellipsis, and it
/// holds no line break or tab.
pub proof fn law_preview_is_one_short_line(content: Seq<char>, max_chars: nat)
    ensures
        preview(content, max_chars).len() <= max_chars + 1,
        forall|i: int| 0 <= i < preview(content, max_chars).len() ==>
            #[trigger] preview(content, max_chars)[i] != '\n' && preview(content, max_chars)[i] != '\t',
{
    let p = preview(content, max_chars);
    assert forall|i: int| 0 <= i < p.len() implies #[trigger] p[i] != '\n' && p[i] != '\t' by {
        if content.len() > max_chars && i == max_chars {
            assert(p[i] == ellipsis());
        }
    }
}

/// The number written by the decimal digits `d`.
pub open spec fn digits_value(d: Seq<char>) -> int
    decreases d.len(),
{
    if d.len() == 0 {
        0
    } else {
        digits_value(d.drop_last()) * 10 + (d.last() as int - '0' as int)
    }
}

proof fn lemma_digit_reads_back(k: nat)
    requires
        k < 10,
    ensures
        digit_char(k) as int - '0' as int == k,
        '0' <= digit_char(k) <= '9',
{
}

/// The decimal notation of `n` consists of digits only, starts with a nonzero
/// digit unless `n` is zero, and reads back as `n`.
pub proof fn law_decimal_reads_back(n: nat)
    ensures
        decimal(n).len() > 0,
        forall|i: int| 0 <= i < decimal(n).len() ==> '0' <= #[trigger] decimal(n)[i] <= '9',
        n > 0 ==> decimal(n)[0] != '0',
        digits_value(decimal(n)) == n,
    decreases n,
{
    if n >= 10 {
        law_decimal_reads_back(n / 10);
        lemma_digit_reads_back(n % 10);
        let d = decimal(n / 10);
        assert(decimal(n) == d.push(digit_char(n % 10)));
        assert(decimal(n).drop_last() =~= d);
        assert(decimal(n)[0] == d[0]);
        assert(decimal(n).last() == digit_char(n % 10));
        assert(digits_value(decimal(n)) == digits_value(d) * 10 + (n % 10));
        assert(n == (n / 10) * 10 + n % 10);
    } else {
        lemma_digit_reads_back(n);
        let one = seq![digit_char(n)];
        assert(one.drop_last() =~= Seq::<char>::empty());
        assert(digits_value(one.drop_last()) == 0);
        assert(one.last() == digit_char(n));
        assert(digits_value(one) == 0 * 10 + (digit_char(n) as int - '0' as int));
    }
}

/// Each character of a preview is the character of the text at that position,
/// a line break or tab shown as a space; a preview of text longer than
/// `max_chars` has exactly `max_chars` such characters and then an ellipsis,
/// and a preview of shorter text has as many characters as the text.
pub proof fn law_preview_follows_text(content: Seq<char>, max_chars: nat)
    ensures
        content.len() > max_chars ==> preview(content, max_chars).len() == max_chars + 1
            && preview(content, max_chars)[max_chars as int] == '\u{2026}',
        content.len() <= max_chars ==> preview(content, max_chars).len() == content.len(),
        forall|i: int| 0 <= i < content.len() && i < max_chars ==> {
            &&& (content[i] == '\n' || content[i] == '\t') ==> #[trigger] preview(content, max_chars)[i] == ' '
            &&& (content[i] != '\n' && content[i] != '\t') ==> preview(content, max_chars)[i] == content[i]
        },
{
}

} // verus!
