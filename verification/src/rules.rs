//! What each rewriting rule puts in the place of a match.
//!
//! Every function here works on the texts that the groups of one match
//! captured, and gives the text that replaces the match.

use vstd::prelude::*;
use crate::delimiter::{closes, find_matching_paren, matching_paren};
use crate::search::{
    find, find_first, lemma_find_from_is_first, skip_white, trim_end, trim_start, trimmed_len,
};
use crate::text::{push_char, push_chars, slice_subrange};

verus! {

/// The mark that may follow a button symbol to select how it is drawn.
pub open spec fn is_selector(c: char) -> bool {
    c == '\u{fe0f}'
}

/// `symbol` without the selector marks it ends with.
pub open spec fn without_selectors(symbol: Seq<char>) -> Seq<char>
    decreases symbol.len(),
{
    if symbol.len() > 0 && is_selector(symbol.last()) {
        without_selectors(symbol.drop_last())
    } else {
        symbol
    }
}

/// The digit that stands for a button symbol: left, right, up, down, O
/// and X are the buttons 0 to 5.
pub open spec fn button_digit(c: char) -> Option<char> {
    if c == '\u{2b05}' {
        Some('0')
    } else if c == '\u{27a1}' {
        Some('1')
    } else if c == '\u{2b06}' {
        Some('2')
    } else if c == '\u{2b07}' {
        Some('3')
    } else if c == '\u{1f17e}' {
        Some('4')
    } else if c == '\u{274e}' {
        Some('5')
    } else {
        None
    }
}

/// The argument of a button call: the button's number where `symbol` is one
/// of the six button symbols, with or without selector marks behind it;
/// else `symbol` as it is.
pub open spec fn button_argument(symbol: Seq<char>) -> Seq<char> {
    let bare = without_selectors(symbol);
    if bare.len() == 1 && button_digit(bare[0]) is Some {
        seq![button_digit(bare[0])->0]
    } else {
        symbol
    }
}

/// The call of `func` on the button that `symbol` names.
pub open spec fn button_call(func: Seq<char>, symbol: Seq<char>) -> Seq<char> {
    func + seq!['('] + button_argument(symbol) + seq![')']
}

/// The button symbols and the numbers 0 to 5 stand one for one: two
/// symbols with the same number are the same symbol, and each of the six
/// numbers is that of a symbol.
pub proof fn lemma_buttons_one_to_one(a: char, b: char, digit: char)
    ensures
        button_digit(a) is Some && button_digit(a) == button_digit(b) ==> a == b,
        button_digit(a) matches Some(d) ==> '0' <= d <= '5',
        '0' <= digit <= '5' ==> exists|symbol: char| button_digit(symbol) == Some(digit),
{
    if '0' <= digit <= '5' {
        assert(button_digit('\u{2b05}') == Some('0'));
        assert(button_digit('\u{27a1}') == Some('1'));
        assert(button_digit('\u{2b06}') == Some('2'));
        assert(button_digit('\u{2b07}') == Some('3'));
        assert(button_digit('\u{1f17e}') == Some('4'));
        assert(button_digit('\u{274e}') == Some('5'));
    }
}

/// Selector marks behind a button symbol are dropped, however many.
pub proof fn lemma_selectors_are_dropped(symbol: char, marks: Seq<char>)
    requires
        !is_selector(symbol),
        forall|i: int| 0 <= i < marks.len() ==> is_selector(#[trigger] marks[i]),
    ensures
        without_selectors(seq![symbol] + marks) == seq![symbol],
    decreases marks.len(),
{
    let all = seq![symbol] + marks;
    if marks.len() > 0 {
        assert(all.last() == marks[marks.len() - 1]);
        assert(all.drop_last() =~= seq![symbol] + marks.drop_last());
        lemma_selectors_are_dropped(symbol, marks.drop_last());
    } else {
        assert(all =~= seq![symbol]);
    }
}

/// Each of the six button symbols gives its own number, with or without
/// selector marks behind it: the call of `func` on the symbol is the call
/// of `func` on the symbol's digit.
pub proof fn lemma_button_symbol_gives_its_digit(func: Seq<char>, symbol: char, marks: Seq<char>)
    requires
        button_digit(symbol) is Some,
        forall|i: int| 0 <= i < marks.len() ==> is_selector(#[trigger] marks[i]),
    ensures
        button_call(func, seq![symbol] + marks) == func + seq!['(', button_digit(symbol)->0, ')'],
{
    lemma_selectors_are_dropped(symbol, marks);
    assert(button_call(func, seq![symbol] + marks) =~= func + seq![
        '(',
        button_digit(symbol)->0,
        ')',
    ]);
}

/// The digit that stands for a button symbol, if `c` is one.
pub fn digit_of_button(c: char) -> (digit: Option<char>)
    ensures
        digit == button_digit(c),
{
    if c == '\u{2b05}' {
        Some('0')
    } else if c == '\u{27a1}' {
        Some('1')
    } else if c == '\u{2b06}' {
        Some('2')
    } else if c == '\u{2b07}' {
        Some('3')
    } else if c == '\u{1f17e}' {
        Some('4')
    } else if c == '\u{274e}' {
        Some('5')
    } else {
        None
    }
}

/// Rewrites a call of a button function: `func` is the function's name and
/// `symbol` what stands between its parentheses, without the white space
/// around it.
pub fn rewrite_button(func: &[char], symbol: &[char]) -> (call: String)
    ensures
        call@ == button_call(func@, symbol@),
{
    let mut len: usize = symbol.len();
    assert(symbol@.take(len as int) =~= symbol@);
    while len > 0 && symbol[len - 1] == '\u{fe0f}'
        invariant
            len <= symbol@.len(),
            without_selectors(symbol@.take(len as int)) == without_selectors(symbol@),
        decreases len,
    {
        assert(symbol@.take(len as int).drop_last() =~= symbol@.take(len - 1));
        len -= 1;
    }
    let bare = slice_subrange(symbol, 0, len);
    let mut call = String::new();
    push_chars(&mut call, func);
    push_char(&mut call, '(');
    let digit = if len == 1 {
        digit_of_button(bare[0])
    } else {
        None
    };
    match digit {
        Some(d) => push_char(&mut call, d),
        None => push_chars(&mut call, symbol),
    }
    push_char(&mut call, ')');
    proof {
        assert(call@ =~= button_call(func@, symbol@));
    }
    call
}

/// A conditional in its short form, written out: `line` is what follows
/// the keyword `if`, from its opening parenthesis to the end of the line,
/// `indent` what stands before the keyword, and `whole` the whole match.
///
/// The condition is what stands between the opening parenthesis and the
/// one that closes it; the body is what follows, without the white space
/// before it. A comment at the end of the body stays behind the `end`. The
/// match stays as it is where the line holds the keyword `then`
/// (`has_then`), and where nothing closes the parenthesis.
pub open spec fn expanded_if(
    whole: Seq<char>,
    indent: Seq<char>,
    line: Seq<char>,
    has_then: bool,
) -> Seq<char> {
    if has_then {
        whole
    } else {
        match matching_paren(line, 0) {
            None => whole,
            Some(close) => {
                let condition = line.subrange(1, close);
                let body = trim_start(line.skip(close + 1));
                match find_first(body, "--"@) {
                    Some(at) => indent + "if "@ + condition + " then "@ + trim_end(body.take(at))
                        + " end "@ + body.skip(at),
                    None => indent + "if "@ + condition + " then "@ + body + " end"@,
                }
            },
        }
    }
}

/// Writes out a conditional in its short form; see `expanded_if`.
pub fn expand_if(whole: &[char], indent: &[char], line: &[char], has_then: bool) -> (out: String)
    ensures
        out@ == expanded_if(whole@, indent@, line@, has_then),
{
    let mut out = String::new();
    if has_then {
        push_chars(&mut out, whole);
        return out;
    }
    match find_matching_paren(line, 0) {
        None => {
            push_chars(&mut out, whole);
        },
        Some(close) => {
            assert(closes(line@, 0, close as int));
            let end = line.len();
            let condition = slice_subrange(line, 1, close);
            let rest = slice_subrange(line, close + 1, end);
            let body = slice_subrange(rest, skip_white(rest), rest.len());
            let dashes = ['-', '-'];
            proof {
                reveal_strlit("--");
                assert(dashes@ =~= "--"@);
                assert(rest@ =~= line@.skip(close + 1));
                assert(body@ =~= trim_start(rest@));
                lemma_find_from_is_first(body@, "--"@, 0);
            }
            push_chars(&mut out, indent);
            out.append("if ");
            push_chars(&mut out, condition);
            out.append(" then ");
            match find(body, dashes.as_slice()) {
                Some(at) => {
                    let code = slice_subrange(body, 0, at);
                    let comment = slice_subrange(body, at, body.len());
                    push_chars(&mut out, slice_subrange(code, 0, trimmed_len(code)));
                    out.append(" end ");
                    push_chars(&mut out, comment);
                },
                None => {
                    push_chars(&mut out, body);
                    out.append(" end");
                },
            }
        },
    }
    out
}

/// A compound assignment written out: the target, `=`, the target again,
/// the operator, and the expression in parentheses, followed by what ended
/// the expression.
pub open spec fn expanded_assignment(
    target: Seq<char>,
    operator: Seq<char>,
    expression: Seq<char>,
    rest: Seq<char>,
) -> Seq<char> {
    target + " = "@ + target + " "@ + operator + " ("@ + expression + ")"@ + rest
}

/// Writes out a compound assignment; see `expanded_assignment`.
pub fn expand_assignment(
    target: &[char],
    operator: &[char],
    expression: &[char],
    rest: &[char],
) -> (out: String)
    ensures
        out@ == expanded_assignment(target@, operator@, expression@, rest@),
{
    let mut out = String::new();
    push_chars(&mut out, target);
    out.append(" = ");
    push_chars(&mut out, target);
    out.append(" ");
    push_chars(&mut out, operator);
    out.append(" (");
    push_chars(&mut out, expression);
    out.append(")");
    push_chars(&mut out, rest);
    out
}

/// The call of `print` on `expression`, behind the line's indentation.
pub open spec fn print_call(indent: Seq<char>, expression: Seq<char>) -> Seq<char> {
    indent + "print("@ + expression + ")"@
}

/// Writes the short form of printing as a call of `print`.
pub fn rewrite_print(indent: &[char], expression: &[char]) -> (out: String)
    ensures
        out@ == print_call(indent@, expression@),
{
    let mut out = String::new();
    push_chars(&mut out, indent);
    out.append("print(");
    push_chars(&mut out, expression);
    out.append(")");
    out
}

/// True when `c` is a binary digit.
pub open spec fn is_bit(c: char) -> bool {
    c == '0' || c == '1'
}

/// True when `digits` holds binary digits only.
pub open spec fn all_bits(digits: Seq<char>) -> bool {
    forall|i: int| 0 <= i < digits.len() ==> is_bit(#[trigger] digits[i])
}

/// The number that `digits` is in base 2, taking as 0 every character but
/// `1`.
pub open spec fn bits_value(digits: Seq<char>) -> nat
    decreases digits.len(),
{
    if digits.len() == 0 {
        0
    } else {
        2 * bits_value(digits.drop_last()) + if digits.last() == '1' {
            1nat
        } else {
            0nat
        }
    }
}

/// The number that `digits` is in base 2, where `digits` is a numeral that
/// fits in 64 bits: at least one character, binary digits only.
pub open spec fn parsed_bits(digits: Seq<char>) -> Option<u64> {
    if digits.len() > 0 && all_bits(digits) && bits_value(digits) <= u64::MAX {
        Some(bits_value(digits) as u64)
    } else {
        None
    }
}

/// The hexadecimal digit for `d`, in lower case.
pub open spec fn hex_digit(d: nat) -> char
    recommends
        d < 16,
{
    if d < 10 {
        ((48 + d) as u8) as char
    } else {
        ((87 + d) as u8) as char
    }
}

/// The hexadecimal numeral for `n`, in lower case and without leading
/// zeros.
pub open spec fn hex(n: nat) -> Seq<char>
    decreases n,
{
    if n < 16 {
        seq![hex_digit(n)]
    } else {
        hex(n / 16).push(hex_digit(n % 16))
    }
}

/// The index of the first `.` in `digits`; its length where it holds none.
pub open spec fn dot_index(digits: Seq<char>) -> int
    decreases digits.len(),
{
    if digits.len() == 0 || digits[0] == '.' {
        0
    } else {
        1 + dot_index(digits.drop_first())
    }
}

/// What stands in `digits` before its first `.`.
pub open spec fn before_dot(digits: Seq<char>) -> Seq<char> {
    digits.take(dot_index(digits))
}

/// What stands in `digits` behind its first `.`; empty where it holds none.
pub open spec fn behind_dot(digits: Seq<char>) -> Seq<char> {
    if dot_index(digits) < digits.len() {
        digits.skip(dot_index(digits) + 1)
    } else {
        Seq::empty()
    }
}

/// `bits` with as many zeros behind it as it takes to make its length a
/// multiple of 4.
pub open spec fn padded_to_nibbles(bits: Seq<char>) -> Seq<char> {
    bits + Seq::new(((4 - bits.len() % 4) % 4) as nat, |i: int| '0')
}

/// A binary literal as a hexadecimal one: `lead` is the character before
/// the literal, `digits` what follows its prefix `0b`, and `whole` the whole
/// match.
///
/// The integer part is what stands before the first `.`, the fraction what
/// stands between the first `.` and the second. Each is read in base 2, the
/// fraction after it was filled up with zeros to whole hexadecimal digits,
/// and written in base 16. Without a fraction the literal has no `.`. The
/// match stays as it is where a part is no binary numeral of at most 64
/// bits.
pub open spec fn hex_literal(whole: Seq<char>, lead: Seq<char>, digits: Seq<char>) -> Seq<char> {
    let integer = before_dot(digits);
    let fraction = before_dot(behind_dot(digits));
    match parsed_bits(integer) {
        None => whole,
        Some(i) => if fraction.len() == 0 {
            lead + "0x"@ + hex(i as nat)
        } else {
            match parsed_bits(padded_to_nibbles(fraction)) {
                Some(f) => lead + "0x"@ + hex(i as nat) + "."@ + hex(f as nat),
                None => whole,
            }
        },
    }
}

/// A numeral is at least what any of its beginnings is.
pub proof fn lemma_bits_value_grows(digits: Seq<char>, len: int)
    requires
        0 <= len <= digits.len(),
    ensures
        bits_value(digits.take(len)) <= bits_value(digits),
    decreases digits.len() - len,
{
    if len < digits.len() {
        lemma_bits_value_grows(digits, len + 1);
        assert(digits.take(len + 1).drop_last() =~= digits.take(len));
    } else {
        assert(digits.take(len) =~= digits);
    }
}

/// Reads `digits` as a number in base 2; see `parsed_bits`.
pub fn parse_bits(digits: &[char]) -> (value: Option<u64>)
    ensures
        value == parsed_bits(digits@),
{
    if digits.len() == 0 {
        return None;
    }
    let mut value: u64 = 0;
    let mut i: usize = 0;
    while i < digits.len()
        invariant
            i <= digits.len(),
            all_bits(digits@.take(i as int)),
            value == bits_value(digits@.take(i as int)),
        decreases digits.len() - i,
    {
        let c = digits[i];
        proof {
            assert(digits@.take(i + 1).drop_last() =~= digits@.take(i as int));
            lemma_bits_value_grows(digits@, i + 1);
        }
        if c != '0' && c != '1' {
            return None;
        }
        let bit: u64 = if c == '1' {
            1
        } else {
            0
        };
        if value > (u64::MAX - bit) / 2 {
            return None;
        }
        value = 2 * value + bit;
        i += 1;
        proof {
            assert forall|k: int| 0 <= k < i implies is_bit(
                #[trigger] digits@.take(i as int)[k],
            ) by {
                if k < i - 1 {
                    assert(digits@.take(i - 1)[k] == digits@[k]);
                }
            }
        }
    }
    proof {
        assert(digits@.take(i as int) =~= digits@);
    }
    Some(value)
}

/// The hexadecimal digit for `d`, in lower case.
pub fn hex_digit_of(d: u8) -> (c: char)
    requires
        d < 16,
    ensures
        c == hex_digit(d as nat),
{
    if d < 10 {
        (48 + d) as char
    } else {
        (87 + d) as char
    }
}

/// Appends the hexadecimal numeral for `n` to `out`.
pub fn push_hex(out: &mut String, n: u64)
    ensures
        final(out)@ == old(out)@ + hex(n as nat),
    decreases n,
{
    if n >= 16 {
        push_hex(out, n / 16);
    }
    push_char(out, hex_digit_of((n % 16) as u8));
    proof {
        assert(final(out)@ =~= old(out)@ + hex(n as nat));
    }
}

/// The index of the first `.` in `digits`; its length where it holds none.
pub fn find_dot(digits: &[char]) -> (at: usize)
    ensures
        at == dot_index(digits@),
        at <= digits@.len(),
{
    let mut at: usize = 0;
    assert(digits@.skip(0) =~= digits@);
    while at < digits.len() && digits[at] != '.'
        invariant
            at <= digits@.len(),
            dot_index(digits@) == at + dot_index(digits@.skip(at as int)),
        decreases digits.len() - at,
    {
        assert(digits@.skip(at as int).drop_first() =~= digits@.skip(at + 1));
        at += 1;
    }
    at
}

/// Writes a binary literal as a hexadecimal one; see `hex_literal`.
pub fn rewrite_binary(whole: &[char], lead: &[char], digits: &[char]) -> (out: String)
    ensures
        out@ == hex_literal(whole@, lead@, digits@),
{
    let dot = find_dot(digits);
    let integer = slice_subrange(digits, 0, dot);
    let behind = if dot < digits.len() {
        slice_subrange(digits, dot + 1, digits.len())
    } else {
        slice_subrange(digits, 0, 0)
    };
    assert(behind@ =~= behind_dot(digits@));
    let fraction = slice_subrange(behind, 0, find_dot(behind));
    let mut out = String::new();
    match parse_bits(integer) {
        None => {
            push_chars(&mut out, whole);
        },
        Some(i) => {
            if fraction.len() == 0 {
                push_chars(&mut out, lead);
                out.append("0x");
                push_hex(&mut out, i);
            } else {
                let mut padded: Vec<char> = Vec::new();
                let mut k: usize = 0;
                while k < fraction.len()
                    invariant
                        k <= fraction.len(),
                        padded@ == fraction@.take(k as int),
                    decreases fraction.len() - k,
                {
                    padded.push(fraction[k]);
                    assert(fraction@.take(k + 1) =~= fraction@.take(k as int).push(
                        fraction@[k as int],
                    ));
                    k += 1;
                }
                assert(fraction@.take(k as int) =~= fraction@);
                let fill: usize = (4 - fraction.len() % 4) % 4;
                let mut z: usize = 0;
                while z < fill
                    invariant
                        z <= fill,
                        padded@ == fraction@ + Seq::new(z as nat, |i: int| '0'),
                    decreases fill - z,
                {
                    padded.push('0');
                    z += 1;
                    assert(padded@ =~= fraction@ + Seq::new(z as nat, |i: int| '0'));
                }
                match parse_bits(padded.as_slice()) {
                    Some(f) => {
                        push_chars(&mut out, lead);
                        out.append("0x");
                        push_hex(&mut out, i);
                        out.append(".");
                        push_hex(&mut out, f);
                    },
                    None => {
                        push_chars(&mut out, whole);
                    },
                }
            }
        },
    }
    out
}

} // verus!
