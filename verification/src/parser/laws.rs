//! What the parser does on some families of input, proved for all of them.
use vstd::prelude::*;
use crate::ascii;
use crate::text::is_text_char;
use crate::text::lemma_text_run_unique;
use crate::text::spec_parse_u32;
use crate::text::digits_value;
use crate::text::unsigned_digits;
use super::codes::Code;
use super::codes::CodeV;
use super::states::Ground;
use super::states::ParserState;
use super::states::parse;
use super::states::run;
use super::states::step;
use super::states::ground_control;
use super::states::is_osc_end;
use super::states::osc_end;
use super::states::split_fields;
use super::states::CsiScan;
use super::states::csi_scan;
use super::states::parse_safe;
use super::states::run_safe;
use super::states::rest_of;
use crate::text::decimal;
use crate::text::is_digit;
use crate::text::lemma_decimal_digits;
use crate::text::lemma_decimal_len;
use super::style::style_codes;

verus! {

/// Form feed, line feed and vertical tab are all treated the same: in the
/// ground state each one is a single new line.
pub proof fn law_line_breaks_alike(input: Seq<char>, pos: nat)
    requires
        pos < input.len(),
        input[pos as int] == ascii::FF || input[pos as int] == ascii::LF || input[pos as int]
            == ascii::VT,
    ensures
        step(ParserState::Ground(Ground), input, pos).codes == seq![Code::<Seq<char>>::NewLine],
        step(ParserState::Ground(Ground), input, pos).next == Some(ParserState::Ground(Ground)),
        step(ParserState::Ground(Ground), input, pos).pos == pos + 1,
{
}

/// Text characters make no control code.
proof fn lemma_text_char_not_control(x: char)
    requires
        is_text_char(x),
    ensures
        ground_control(x) is None,
{
}

/// The run from the ground state at the end of the input is empty.
proof fn lemma_ground_at_end(input: Seq<char>)
    ensures
        run(ParserState::Ground(Ground), input, input.len()) == Seq::<CodeV>::empty(),
{
}

/// Plain text: a nonempty run of text characters is a single `Chars` code
/// holding all of it.
pub proof fn law_plain_text(s: Seq<char>)
    requires
        s.len() > 0,
        forall|i: int| 0 <= i < s.len() ==> is_text_char(#[trigger] s[i]),
    ensures
        parse(s) == seq![Code::Chars(s)],
        parse_safe(s),
{
    lemma_text_char_not_control(s[0]);
    let rest = s.skip(1);
    assert forall|i: int| 0 <= i < rest.len() implies is_text_char(#[trigger] rest[i]) by {
        assert(rest[i] == s[i + 1]);
    }
    lemma_text_run_unique(rest, rest.len() as int);
    assert(s.subrange(0, s.len() as int) == s);
    lemma_ground_at_end(s);
    assert(parse(s) == seq![Code::Chars(s)] + Seq::<CodeV>::empty());
    assert(run_safe(ParserState::Ground(Ground), s, s.len()));
}

/// Plain text followed by a bell: the text as one `Chars` code, then `Bell`
/// (the bell is not a text character, so it ends the run).
pub proof fn law_text_then_bell(s: Seq<char>)
    requires
        s.len() > 0,
        forall|i: int| 0 <= i < s.len() ==> is_text_char(#[trigger] s[i]),
    ensures
        parse(s.push(ascii::BEL)) == seq![Code::Chars(s), Code::<Seq<char>>::Bell],
        parse_safe(s.push(ascii::BEL)),
{
    let input = s.push(ascii::BEL);
    lemma_text_char_not_control(s[0]);
    assert(input[0] == s[0]);
    let rest = input.skip(1);
    assert forall|i: int| 0 <= i < s.len() - 1 implies is_text_char(#[trigger] rest[i]) by {
        assert(rest[i] == s[i + 1]);
    }
    assert(rest[s.len() - 1] == ascii::BEL);
    lemma_text_run_unique(rest, s.len() - 1);
    assert(input.subrange(0, s.len() as int) == s);
    let first = step(ParserState::Ground(Ground), input, 0);
    assert(first.pos == s.len());
    assert(input[s.len() as int] == ascii::BEL);
    let second = step(ParserState::Ground(Ground), input, s.len());
    assert(second.codes == seq![Code::<Seq<char>>::Bell]);
    assert(second.pos == input.len());
    lemma_ground_at_end(input);
    assert(run(ParserState::Ground(Ground), input, s.len()) == seq![Code::<Seq<char>>::Bell]
        + Seq::<CodeV>::empty());
    assert(parse(input) == seq![Code::Chars(s)] + seq![Code::<Seq<char>>::Bell]);
    assert(run_safe(ParserState::Ground(Ground), input, input.len()));
    assert(run_safe(ParserState::Ground(Ground), input, s.len()));
}

/// There is always at least one field.
proof fn lemma_split_len(s: Seq<char>)
    ensures
        split_fields(s).len() >= 1,
    decreases s.len(),
{
    if s.len() > 0 {
        lemma_split_len(s.drop_last());
    }
}

/// Characters without `;` extend the last field.
proof fn lemma_split_extend(a: Seq<char>, t: Seq<char>)
    requires
        forall|i: int| 0 <= i < t.len() ==> #[trigger] t[i] != ';',
    ensures
        split_fields(a + t) == split_fields(a).update(
            split_fields(a).len() - 1,
            split_fields(a).last() + t,
        ),
    decreases t.len(),
{
    lemma_split_len(a);
    if t.len() == 0 {
        assert(a + t == a);
        assert(split_fields(a).last() + t == split_fields(a).last());
        assert(split_fields(a).update(split_fields(a).len() - 1, split_fields(a).last())
            == split_fields(a));
    } else {
        lemma_split_extend(a, t.drop_last());
        assert((a + t).drop_last() == a + t.drop_last());
        assert((a + t).last() == t.last());
        assert(t.last() == t[t.len() - 1]);
        assert((split_fields(a).last() + t.drop_last()).push(t.last()) == split_fields(a).last()
            + t);
        assert(split_fields(a + t) =~= split_fields(a).update(
            split_fields(a).len() - 1,
            split_fields(a).last() + t,
        ));
    }
}

/// The end of an operating system command is its first terminator.
proof fn lemma_osc_end_at(input: Seq<char>, i: nat, j: nat)
    requires
        i <= j < input.len(),
        is_osc_end(input[j as int]),
        forall|k: int| i <= k < j ==> !is_osc_end(#[trigger] input[k]),
    ensures
        osc_end(input, i) == j,
    decreases j - i,
{
    if i < j {
        lemma_osc_end_at(input, i + 1, j);
    }
}

/// An operating system command `ESC ] n ; text` ended by ST or BEL, where `n`
/// is 0 or 2, sets the window title to the text; where `n` is 7, it sets the
/// current path.
pub proof fn law_osc_text(d: char, t: Seq<char>, term: char)
    requires
        d == '0' || d == '2' || d == '7',
        term == ascii::ST || term == ascii::BEL,
        forall|i: int| 0 <= i < t.len() ==> #[trigger] t[i] != ';' && !is_osc_end(t[i]),
    ensures
        parse_safe(seq![ascii::ESC, ']', d, ';'] + t + seq![term]),
        parse(seq![ascii::ESC, ']', d, ';'] + t + seq![term]) == seq![
            if d == '7' {
                Code::CurrentPath(t)
            } else {
                Code::WindowTitle(t)
            },
        ],
{
    let input = seq![ascii::ESC, ']', d, ';'] + t + seq![term];
    let end = input.len() - 1;
    assert(input[0] == ascii::ESC);
    assert(input[1] == ']');
    assert forall|k: int| 2 <= k < end implies !is_osc_end(#[trigger] input[k]) by {
        if k >= 4 {
            assert(input[k] == t[k - 4]);
        }
    }
    assert(input[end as int] == term);
    lemma_osc_end_at(input, 2, end as nat);
    let head = seq![d, ';'];
    assert(input.subrange(2, end as int) == head + t);
    assert(split_fields(seq![d]) =~~= seq![seq![d]]) by {
        assert(seq![d].drop_last() =~= Seq::<char>::empty());
        assert(seq![d].last() == d);
        assert(split_fields(Seq::<char>::empty()) == seq![Seq::<char>::empty()]);
        assert(Seq::<char>::empty().push(d) =~= seq![d]);
    }
    assert(head.drop_last() == seq![d]);
    assert(split_fields(head) == seq![seq![d], Seq::<char>::empty()]);
    lemma_split_extend(head, t);
    assert(Seq::<char>::empty() + t == t);
    let fields = split_fields(head + t);
    assert(fields =~= seq![seq![d], t]);
    assert(unsigned_digits(seq![d]) == seq![d]);
    assert(seq![d].drop_last() == Seq::<char>::empty());
    assert(digits_value(seq![d]) == (d as u32) - 48) by {
        assert(seq![d].drop_last() =~= Seq::<char>::empty());
        assert(seq![d].last() == d);
        assert(digits_value(Seq::<char>::empty()) == 0);
    }
    assert(spec_parse_u32(seq![d]) == Some(((d as u32) - 48) as u32));
    lemma_ground_at_end(input);
    let osc = ParserState::SystemCommandSequence(super::states::SystemCommandSequence);
    assert(step(osc, input, 2).pos == input.len());
    let code: CodeV = if d == '7' {
        Code::CurrentPath(t)
    } else {
        Code::WindowTitle(t)
    };
    assert(step(osc, input, 2).codes == seq![code]);
    assert(run(osc, input, 2) == seq![code] + Seq::<CodeV>::empty());
    let esc = ParserState::EscapeSeq(super::states::EscapeSeq);
    assert(step(esc, input, 1).next == Some(osc));
    assert(run(esc, input, 1) == Seq::<CodeV>::empty() + run(osc, input, 2));
    assert(step(ParserState::Ground(Ground), input, 0).next == Some(esc));
    assert(parse(input) == Seq::<CodeV>::empty() + run(esc, input, 1));
    assert(seq![code] + Seq::<CodeV>::empty() == seq![code]);
    assert(Seq::<CodeV>::empty() + seq![code] == seq![code]);
    assert(run_safe(ParserState::Ground(Ground), input, input.len()));
    assert(run_safe(osc, input, 2));
    assert(run_safe(esc, input, 1));
}

/// A control sequence made of digits only holds their number, not yet a
/// parameter.
proof fn lemma_csi_scan_digits(ds: Seq<char>)
    requires
        forall|i: int| 0 <= i < ds.len() ==> is_digit(#[trigger] ds[i]),
        digits_value(ds) + 48 <= u32::MAX,
        ds.len() <= i32::MAX + 1,
    ensures
        csi_scan(ds) == (CsiScan {
            count: ds.len(),
            question_mark: false,
            more_mark: false,
            final_char: '\0',
            argv: seq![],
            cur: digits_value(ds) as int,
            digit: ds.len() > 0,
            fits: true,
        }),
    decreases ds.len(),
{
    if ds.len() > 0 {
        let dl = ds.drop_last();
        assert forall|i: int| 0 <= i < dl.len() implies is_digit(#[trigger] dl[i]) by {
            assert(dl[i] == ds[i]);
        }
        assert(is_digit(ds[ds.len() - 1]));
        lemma_csi_scan_digits(dl);
    }
}

/// `ESC [ n ; @` inserts `n` blank characters, for every `n` written in
/// decimal up to 2^32 - 49 (beyond that, reading the last digit overflows);
/// without the `;`, the number is no parameter and the count is 1.
pub proof fn law_csi_insert_blank(n: u32)
    requires
        n + 48 <= u32::MAX,
    ensures
        parse_safe(seq![ascii::ESC, '['] + decimal(n as nat) + seq![';', '@']),
        parse(seq![ascii::ESC, '['] + decimal(n as nat) + seq![';', '@']) == seq![
            Code::<Seq<char>>::InsertBlankCharacters(n),
        ],
        parse_safe(seq![ascii::ESC, '['] + decimal(n as nat) + seq!['@']),
        parse(seq![ascii::ESC, '['] + decimal(n as nat) + seq!['@']) == seq![
            Code::<Seq<char>>::InsertBlankCharacters(1),
        ],
{
    let ds = decimal(n as nat);
    lemma_decimal_digits(n as nat);
    lemma_decimal_len(n as nat);
    lemma_csi_scan_digits(ds);
    let esc = ParserState::EscapeSeq(super::states::EscapeSeq);
    let csi = ParserState::ControlSequence(super::states::ControlSequence);
    let ground = ParserState::Ground(Ground);
    // With the `;`.
    let a = seq![ascii::ESC, '['] + ds + seq![';', '@'];
    assert(a[0] == ascii::ESC && a[1] == '[');
    let body_a = rest_of(a, 2);
    assert(body_a == ds.push(';').push('@'));
    assert(body_a.drop_last() == ds.push(';'));
    assert(ds.push(';').drop_last() == ds);
    assert(ds.push(';').last() == ';');
    assert(body_a.last() == '@');
    let mid = csi_scan(ds.push(';'));
    assert(mid.argv =~= seq![n] && mid.fits && !mid.digit && mid.count == ds.len() + 1);
    let scan_a = csi_scan(body_a);
    assert(scan_a.final_char == '@' && scan_a.argv =~= seq![n] && scan_a.fits);
    assert(step(csi, a, 2).codes == seq![Code::<Seq<char>>::InsertBlankCharacters(n)]);
    assert(step(csi, a, 2).pos == a.len());
    lemma_ground_at_end(a);
    assert(run(csi, a, 2) == seq![Code::<Seq<char>>::InsertBlankCharacters(n)]
        + Seq::<CodeV>::empty());
    assert(run(esc, a, 1) == Seq::<CodeV>::empty() + run(csi, a, 2));
    assert(parse(a) == Seq::<CodeV>::empty() + run(esc, a, 1));
    assert(run_safe(ground, a, a.len()));
    assert(run_safe(csi, a, 2));
    assert(run_safe(esc, a, 1));
    // Without it.
    let b = seq![ascii::ESC, '['] + ds + seq!['@'];
    assert(b[0] == ascii::ESC && b[1] == '[');
    let body_b = rest_of(b, 2);
    assert(body_b == ds.push('@'));
    assert(body_b.drop_last() == ds);
    assert(body_b.last() == '@');
    let scan_b = csi_scan(body_b);
    assert(scan_b.final_char == '@' && scan_b.argv =~= Seq::<u32>::empty() && scan_b.fits);
    assert(step(csi, b, 2).codes == seq![Code::<Seq<char>>::InsertBlankCharacters(1)]);
    assert(step(csi, b, 2).pos == b.len());
    lemma_ground_at_end(b);
    assert(run(csi, b, 2) == seq![Code::<Seq<char>>::InsertBlankCharacters(1)]
        + Seq::<CodeV>::empty());
    assert(run(esc, b, 1) == Seq::<CodeV>::empty() + run(csi, b, 2));
    assert(parse(b) == Seq::<CodeV>::empty() + run(esc, b, 1));
    assert(run_safe(ground, b, b.len()));
    assert(run_safe(csi, b, 2));
    assert(run_safe(esc, b, 1));
}

/// Parameters, each a run of digits followed by `;`.
pub open spec fn param_list(params: Seq<Seq<char>>) -> Seq<char>
    decreases params.len(),
{
    if params.len() == 0 {
        seq![]
    } else {
        param_list(params.drop_last()) + params.last() + seq![';']
    }
}

/// Runs of digits: each nonempty, made of digits only (leading zeros
/// allowed), and standing for a number that fits in 32 bits.
pub open spec fn digit_params(params: Seq<Seq<char>>) -> bool {
    &&& forall|i: int| 0 <= i < params.len() ==> #[trigger] params[i].len() > 0
    &&& forall|i: int, j: int|
        0 <= i < params.len() && 0 <= j < params[i].len() ==> is_digit(#[trigger] params[i][j])
    &&& forall|i: int| 0 <= i < params.len() ==> #[trigger] digits_value(params[i]) <= u32::MAX
}

/// The numbers that runs of digits stand for.
pub open spec fn param_values(params: Seq<Seq<char>>) -> Seq<u32> {
    params.map_values(|d: Seq<char>| digits_value(d) as u32)
}

/// Digits read after a finished parameter make up the number being read.
proof fn lemma_csi_scan_more_digits(a: Seq<char>, ds: Seq<char>)
    requires
        forall|i: int| 0 <= i < ds.len() ==> is_digit(#[trigger] ds[i]),
        csi_scan(a).cur == 0,
        !csi_scan(a).digit,
    ensures
        csi_scan(a + ds).argv == csi_scan(a).argv,
        csi_scan(a + ds).final_char == csi_scan(a).final_char,
        csi_scan(a + ds).cur == digits_value(ds),
        csi_scan(a + ds).digit == (ds.len() > 0),
        csi_scan(a + ds).question_mark == csi_scan(a).question_mark,
        csi_scan(a + ds).more_mark == csi_scan(a).more_mark,
    decreases ds.len(),
{
    if ds.len() == 0 {
        assert(a + ds =~= a);
    } else {
        let dl = ds.drop_last();
        assert forall|i: int| 0 <= i < dl.len() implies is_digit(#[trigger] dl[i]) by {
            assert(dl[i] == ds[i]);
        }
        lemma_csi_scan_more_digits(a, dl);
        assert((a + ds).drop_last() =~= a + dl);
        assert((a + ds).last() == ds.last());
        assert(is_digit(ds[ds.len() - 1]));
    }
}

/// A control sequence made of an optional `?` or `>` and a list of
/// parameters, each ended by `;`, holds exactly those parameters.
proof fn lemma_csi_scan_params(pfx: Seq<char>, params: Seq<Seq<char>>)
    requires
        pfx == Seq::<char>::empty() || pfx == seq!['?'] || pfx == seq!['>'],
        digit_params(params),
    ensures
        csi_scan(pfx + param_list(params)).argv == param_values(params),
        csi_scan(pfx + param_list(params)).cur == 0,
        !csi_scan(pfx + param_list(params)).digit,
        csi_scan(pfx + param_list(params)).final_char == '\0',
        csi_scan(pfx + param_list(params)).question_mark == (pfx == seq!['?']),
        csi_scan(pfx + param_list(params)).more_mark == (pfx == seq!['>']),
    decreases params.len(),
{
    if params.len() == 0 {
        assert(pfx + param_list(params) =~= pfx);
        assert(csi_scan(Seq::<char>::empty()) == super::states::csi_start());
        if pfx.len() > 0 {
            assert(pfx.drop_last() =~= Seq::<char>::empty());
            assert(csi_scan(pfx) == super::states::csi_feed(super::states::csi_start(), pfx.last()));
        }
        assert(param_values(params) =~= Seq::<u32>::empty());
    } else {
        let dl = params.drop_last();
        let last_index = params.len() - 1;
        let ds = params.last();
        assert(ds == params[last_index]);
        assert(digit_params(dl)) by {
            assert forall|i: int| 0 <= i < dl.len() implies #[trigger] dl[i] == params[i] by {}
        }
        lemma_csi_scan_params(pfx, dl);
        let a = pfx + param_list(dl);
        assert forall|j: int| 0 <= j < ds.len() implies is_digit(#[trigger] ds[j]) by {
            assert(is_digit(params[last_index][j]));
        }
        assert(ds.len() > 0);
        assert(digits_value(ds) <= u32::MAX);
        lemma_csi_scan_more_digits(a, ds);
        let full = (a + ds).push(';');
        assert(pfx + param_list(params) =~= full);
        assert(full.drop_last() =~= a + ds);
        assert(full.last() == ';');
        assert(csi_scan(full) == super::states::csi_feed(csi_scan(a + ds), ';'));
        assert(csi_scan(a + ds).digit);
        assert(csi_scan(full).argv == csi_scan(a).argv.push(digits_value(ds) as u32));
        assert(param_values(params) =~= param_values(dl).push(digits_value(ds) as u32));
    }
}

/// A control sequence ending in `m` (SGR), with an optional `?` or `>` and
/// parameters each written as a run of digits (leading zeros allowed) and
/// ended by `;`, gives the style codes of exactly those numbers: the codes
/// [`super::style::emit_style_codes`] emits for them.
pub proof fn law_csi_style(pfx: Seq<char>, params: Seq<Seq<char>>)
    requires
        pfx == Seq::<char>::empty() || pfx == seq!['?'] || pfx == seq!['>'],
        digit_params(params),
    ensures
        parse(seq![ascii::ESC, '['] + pfx + param_list(params) + seq!['m']) == style_codes(
            param_values(params),
        ),
{
    let argv = param_values(params);
    let input = seq![ascii::ESC, '['] + pfx + param_list(params) + seq!['m'];
    lemma_csi_scan_params(pfx, params);
    assert(input[0] == ascii::ESC && input[1] == '[');
    let body = rest_of(input, 2);
    assert(body =~= (pfx + param_list(params)).push('m'));
    assert(body.drop_last() =~= pfx + param_list(params));
    assert(body.last() == 'm');
    let esc = ParserState::EscapeSeq(super::states::EscapeSeq);
    let csi = ParserState::ControlSequence(super::states::ControlSequence);
    let scan = csi_scan(body);
    assert(scan == super::states::csi_feed(csi_scan(pfx + param_list(params)), 'm'));
    assert(scan.final_char == 'm' && scan.argv == argv);
    assert(super::states::csi_codes('m', scan.question_mark, scan.more_mark, argv) == style_codes(
        argv,
    ));
    assert(step(csi, input, 2).codes == style_codes(argv));
    assert(step(csi, input, 2).pos == input.len());
    lemma_ground_at_end(input);
    assert(run(csi, input, 2) == style_codes(argv) + Seq::<CodeV>::empty());
    assert(run(esc, input, 1) == Seq::<CodeV>::empty() + run(csi, input, 2));
    assert(parse(input) == Seq::<CodeV>::empty() + run(esc, input, 1));
    assert(style_codes(argv) + Seq::<CodeV>::empty() == style_codes(argv));
    assert(Seq::<CodeV>::empty() + style_codes(argv) == style_codes(argv));
}

/// A control sequence at the start of the input is read to the end: its codes
/// are those of what its scan gathers, and it is safe when the scan's
/// counters stay in range.
proof fn lemma_parse_csi(body: Seq<char>)
    ensures
        parse(seq![ascii::ESC, '['] + body) == super::states::csi_codes(
            csi_scan(body).final_char,
            csi_scan(body).question_mark,
            csi_scan(body).more_mark,
            csi_scan(body).argv,
        ),
        parse_safe(seq![ascii::ESC, '['] + body) == csi_scan(body).fits,
{
    let input = seq![ascii::ESC, '['] + body;
    assert(input[0] == ascii::ESC && input[1] == '[');
    assert(rest_of(input, 2) =~= body);
    let esc = ParserState::EscapeSeq(super::states::EscapeSeq);
    let csi = ParserState::ControlSequence(super::states::ControlSequence);
    let ground = ParserState::Ground(Ground);
    let codes = step(csi, input, 2).codes;
    assert(step(csi, input, 2).pos == input.len());
    lemma_ground_at_end(input);
    assert(run(csi, input, 2) == codes + Seq::<CodeV>::empty());
    assert(run(esc, input, 1) == Seq::<CodeV>::empty() + run(csi, input, 2));
    assert(parse(input) == Seq::<CodeV>::empty() + run(esc, input, 1));
    assert(codes + Seq::<CodeV>::empty() == codes);
    assert(Seq::<CodeV>::empty() + codes == codes);
    assert(run_safe(ground, input, input.len()));
    assert(run_safe(csi, input, 2) == csi_scan(body).fits);
    assert(run_safe(esc, input, 1) == run_safe(csi, input, 2));
}

/// `ESC [ n ; f`: one parameter, written in decimal.
pub open spec fn csi_one_param(n: u32, f: char) -> Seq<char> {
    seq![ascii::ESC, '['] + decimal(n as nat) + seq![';', f]
}

/// `ESC [ mark n ; f`: one parameter after a `?` or `>` mark.
pub open spec fn csi_marked_param(mark: char, n: u32, f: char) -> Seq<char> {
    seq![ascii::ESC, '[', mark] + decimal(n as nat) + seq![';', f]
}

/// `ESC [ f`: no parameter.
pub open spec fn csi_no_param(f: char) -> Seq<char> {
    seq![ascii::ESC, '[', f]
}

/// What one parameter `n` and a final character `f` gather, after an
/// optional mark.
proof fn lemma_csi_scan_one_param(pfx: Seq<char>, n: u32, f: char)
    requires
        pfx == Seq::<char>::empty() || pfx == seq!['?'] || pfx == seq!['>'],
        n + 48 <= u32::MAX,
        '\x40' <= f <= '\x7E',
    ensures
        csi_scan(pfx + decimal(n as nat) + seq![';', f]).final_char == f,
        csi_scan(pfx + decimal(n as nat) + seq![';', f]).argv == seq![n],
        csi_scan(pfx + decimal(n as nat) + seq![';', f]).question_mark == (pfx == seq!['?']),
        csi_scan(pfx + decimal(n as nat) + seq![';', f]).more_mark == (pfx == seq!['>']),
        csi_scan(pfx + decimal(n as nat) + seq![';', f]).fits,
{
    let ds = decimal(n as nat);
    lemma_decimal_digits(n as nat);
    lemma_decimal_len(n as nat);
    assert(csi_scan(Seq::<char>::empty()) == super::states::csi_start());
    if pfx.len() > 0 {
        assert(pfx.drop_last() =~= Seq::<char>::empty());
        assert(csi_scan(pfx) == super::states::csi_feed(super::states::csi_start(), pfx.last()));
    }
    let a = pfx;
    lemma_csi_scan_more_digits_fits(a, ds);
    let b = (a + ds).push(';');
    assert(b.drop_last() =~= a + ds);
    assert(b.last() == ';');
    let c = b.push(f);
    assert(c.drop_last() =~= b);
    assert(c.last() == f);
    assert(pfx + decimal(n as nat) + seq![';', f] =~= c);
    assert(csi_scan(b).argv =~= seq![n]);
}

/// Digits after a mark or at the start keep the counters in range while
/// their number and the characters read stay small.
proof fn lemma_csi_scan_more_digits_fits(a: Seq<char>, ds: Seq<char>)
    requires
        a.len() <= 1,
        csi_scan(a).cur == 0,
        !csi_scan(a).digit,
        csi_scan(a).fits,
        csi_scan(a).count == a.len(),
        csi_scan(a).argv == Seq::<u32>::empty(),
        csi_scan(a).final_char == '\0',
        forall|i: int| 0 <= i < ds.len() ==> is_digit(#[trigger] ds[i]),
        digits_value(ds) + 48 <= u32::MAX,
        ds.len() <= 600_000_000,
    ensures
        csi_scan(a + ds).cur == digits_value(ds),
        csi_scan(a + ds).digit == (ds.len() > 0),
        csi_scan(a + ds).fits,
        csi_scan(a + ds).count == a.len() + ds.len(),
        csi_scan(a + ds).argv == Seq::<u32>::empty(),
        csi_scan(a + ds).final_char == '\0',
        csi_scan(a + ds).question_mark == csi_scan(a).question_mark,
        csi_scan(a + ds).more_mark == csi_scan(a).more_mark,
    decreases ds.len(),
{
    if ds.len() == 0 {
        assert(a + ds =~= a);
    } else {
        let dl = ds.drop_last();
        assert forall|i: int| 0 <= i < dl.len() implies is_digit(#[trigger] dl[i]) by {
            assert(dl[i] == ds[i]);
        }
        assert(is_digit(ds[ds.len() - 1]));
        assert(digits_value(dl) <= digits_value(ds));
        lemma_csi_scan_more_digits_fits(a, dl);
        assert((a + ds).drop_last() =~= a + dl);
        assert((a + ds).last() == ds.last());
    }
}

/// The codes of a control sequence with one parameter `n` and final `f`,
/// after an optional mark, and that it overflows nothing.
proof fn lemma_parse_one_param(pfx: Seq<char>, n: u32, f: char)
    requires
        pfx == Seq::<char>::empty() || pfx == seq!['?'] || pfx == seq!['>'],
        n + 48 <= u32::MAX,
        '\x40' <= f <= '\x7E',
    ensures
        parse(seq![ascii::ESC, '['] + pfx + decimal(n as nat) + seq![';', f])
            == super::states::csi_codes(f, pfx == seq!['?'], pfx == seq!['>'], seq![n]),
        parse_safe(seq![ascii::ESC, '['] + pfx + decimal(n as nat) + seq![';', f]),
{
    let body = pfx + decimal(n as nat) + seq![';', f];
    lemma_csi_scan_one_param(pfx, n, f);
    lemma_parse_csi(body);
    assert(seq![ascii::ESC, '['] + pfx + decimal(n as nat) + seq![';', f] =~= seq![ascii::ESC, '[']
        + body);
}

/// Cursor moves, insertion and positioning with one parameter `n`: the moves
/// `A`..`F` go `n` places (a count of 0 means 1), and the rest take `n` as
/// given; each control sequence is read safely.
pub proof fn law_csi_cursor(n: u32)
    requires
        n + 48 <= u32::MAX,
    ensures
        parse(csi_one_param(n, '@')) == seq![Code::<Seq<char>>::InsertBlankCharacters(n)],
        parse(csi_one_param(n, 'A')) == seq![
            Code::<Seq<char>>::CursorUp(if n == 0 { 1 } else { n }),
        ],
        parse(csi_one_param(n, 'B')) == seq![
            Code::<Seq<char>>::CursorDown(if n == 0 { 1 } else { n }),
        ],
        parse(csi_one_param(n, 'C')) == seq![
            Code::<Seq<char>>::CursorForward(if n == 0 { 1 } else { n }),
        ],
        parse(csi_one_param(n, 'D')) == seq![
            Code::<Seq<char>>::CursorBackward(if n == 0 { 1 } else { n }),
        ],
        parse(csi_one_param(n, 'E')) == seq![
            Code::<Seq<char>>::CursorNextLine(if n == 0 { 1 } else { n }),
        ],
        parse(csi_one_param(n, 'F')) == seq![
            Code::<Seq<char>>::CursorPrecedingLine(if n == 0 { 1 } else { n }),
        ],
        parse(csi_one_param(n, 'G')) == seq![Code::<Seq<char>>::CursorHorizontalAbsolute(n)],
        parse(csi_one_param(n, '`')) == seq![Code::<Seq<char>>::CursorHorizontalAbsolute(n)],
        parse(csi_one_param(n, 'H')) == seq![Code::<Seq<char>>::CursorPosition { x: n, y: 1 }],
        parse(csi_one_param(n, 'f')) == seq![Code::<Seq<char>>::CursorPosition { x: n, y: 1 }],
        parse(csi_one_param(n, 'd')) == seq![Code::<Seq<char>>::LinePositionAbsolute(n)],
        forall|f: char| '\x40' <= f <= '\x7E' ==> parse_safe(#[trigger] csi_one_param(n, f)),
{
    let e = Seq::<char>::empty();
    lemma_parse_one_param(e, n, '@');
    lemma_parse_one_param(e, n, 'A');
    lemma_parse_one_param(e, n, 'B');
    lemma_parse_one_param(e, n, 'C');
    lemma_parse_one_param(e, n, 'D');
    lemma_parse_one_param(e, n, 'E');
    lemma_parse_one_param(e, n, 'F');
    lemma_parse_one_param(e, n, 'G');
    lemma_parse_one_param(e, n, '`');
    lemma_parse_one_param(e, n, 'H');
    lemma_parse_one_param(e, n, 'f');
    lemma_parse_one_param(e, n, 'd');
    assert forall|f: char| '\x40' <= f <= '\x7E' implies parse_safe(#[trigger] csi_one_param(n, f)) by {
        lemma_parse_one_param(e, n, f);
        assert(seq![ascii::ESC, '['] + e =~= seq![ascii::ESC, '[']);
    }
    assert(seq![ascii::ESC, '['] + e =~= seq![ascii::ESC, '[']);
}

/// Erasing, inserting, deleting and scrolling with one parameter `n`: each
/// takes `n` as given.
pub proof fn law_csi_edit(n: u32)
    requires
        n + 48 <= u32::MAX,
    ensures
        parse(csi_one_param(n, 'J')) == seq![Code::<Seq<char>>::EraseInDisplay(n)],
        parse(csi_one_param(n, 'K')) == seq![Code::<Seq<char>>::EraseInLine(n)],
        parse(csi_one_param(n, 'L')) == seq![Code::<Seq<char>>::InsertLines(n)],
        parse(csi_one_param(n, 'M')) == seq![Code::<Seq<char>>::DeleteLines(n)],
        parse(csi_one_param(n, 'X')) == seq![Code::<Seq<char>>::EraseCharacters(n)],
        parse(csi_one_param(n, 'P')) == seq![Code::<Seq<char>>::DeleteCharacters(n)],
        parse(csi_one_param(n, 'S')) == seq![Code::<Seq<char>>::ScrollUp(n)],
        parse(csi_one_param(n, 'T')) == seq![Code::<Seq<char>>::ScrollDown(n)],
{
    let e = Seq::<char>::empty();
    assert(seq![ascii::ESC, '['] + e =~= seq![ascii::ESC, '[']);
    lemma_parse_one_param(e, n, 'J');
    lemma_parse_one_param(e, n, 'K');
    lemma_parse_one_param(e, n, 'L');
    lemma_parse_one_param(e, n, 'M');
    lemma_parse_one_param(e, n, 'X');
    lemma_parse_one_param(e, n, 'P');
    lemma_parse_one_param(e, n, 'S');
    lemma_parse_one_param(e, n, 'T');
}

/// Modes, reports, tabs, the scrolling region, window commands, attributes
/// and unknown finals with one parameter `n`.
pub proof fn law_csi_modes(n: u32)
    requires
        n + 48 <= u32::MAX,
    ensures
        parse(csi_one_param(n, 'g')) == seq![Code::<Seq<char>>::TabClear(n)],
        parse(csi_one_param(n, 'h')) == seq![Code::<Seq<char>>::SetMode(n)],
        parse(csi_one_param(n, 'l')) == seq![Code::<Seq<char>>::SetMode(n)],
        parse(csi_one_param(n, 'n')) == seq![Code::<Seq<char>>::DeviceStatusReport(n)],
        parse(csi_one_param(n, 'c')) == seq![Code::<Seq<char>>::SendPrimaryDeviceAttributes],
        parse(csi_one_param(n, 'r')) == seq![
            Code::<Seq<char>>::SetScrollingRegion { top: n, bottom: 0 },
        ],
        n == 8 ==> parse(csi_one_param(n, 't')) == seq![
            Code::<Seq<char>>::Resize { width: 0, height: 0 },
        ],
        n != 8 ==> parse(csi_one_param(n, 't')) == seq![
            Code::<Seq<char>>::Error("Unkown window manipulation command "@ + decimal(n as nat)),
        ],
        parse(csi_one_param(n, 'm')) == style_codes(seq![n]),
        parse(csi_one_param(n, 'z')) == seq![Code::<Seq<char>>::Error("Unknown CSI code z"@)],
{
    let e = Seq::<char>::empty();
    assert(seq![ascii::ESC, '['] + e =~= seq![ascii::ESC, '[']);
    lemma_parse_one_param(e, n, 'g');
    lemma_parse_one_param(e, n, 'h');
    lemma_parse_one_param(e, n, 'l');
    lemma_parse_one_param(e, n, 'n');
    lemma_parse_one_param(e, n, 'c');
    lemma_parse_one_param(e, n, 'r');
    lemma_parse_one_param(e, n, 't');
    lemma_parse_one_param(e, n, 'm');
    lemma_parse_one_param(e, n, 'z');
    reveal_strlit("Unknown CSI code z");
    reveal_strlit("Unknown CSI code ");
    assert("Unknown CSI code "@.push('z') =~= "Unknown CSI code z"@);
}

/// After a `?` the erase and report sequences are their DEC forms, and after
/// a `>` the device attributes with parameter 0 are the secondary ones.
pub proof fn law_csi_marks(n: u32)
    requires
        n + 48 <= u32::MAX,
    ensures
        parse(csi_marked_param('?', n, 'J')) == seq![Code::<Seq<char>>::SelectiveEraseInDisplay(n)],
        parse(csi_marked_param('?', n, 'K')) == seq![Code::<Seq<char>>::SelectiveEraseInLine(n)],
        parse(csi_marked_param('?', n, 'n')) == seq![Code::<Seq<char>>::DecDeviceStatusReport],
        parse(csi_marked_param('?', n, 'r')) == seq![Code::<Seq<char>>::RestoreDecPrivateMode],
        parse(csi_marked_param('?', n, 'A')) == seq![
            Code::<Seq<char>>::CursorUp(if n == 0 { 1 } else { n }),
        ],
        n == 0 ==> parse(csi_marked_param('>', n, 'c')) == seq![
            Code::<Seq<char>>::SendSecondaryDeviceAttributes,
        ],
        n != 0 ==> parse(csi_marked_param('>', n, 'c')) == seq![
            Code::<Seq<char>>::SendPrimaryDeviceAttributes,
        ],
        parse(csi_marked_param('>', n, 'J')) == seq![Code::<Seq<char>>::EraseInDisplay(n)],
{
    let q = seq!['?'];
    let m = seq!['>'];
    assert(seq![ascii::ESC, '['] + q =~= seq![ascii::ESC, '[', '?']);
    assert(seq![ascii::ESC, '['] + m =~= seq![ascii::ESC, '[', '>']);
    lemma_parse_one_param(q, n, 'J');
    lemma_parse_one_param(q, n, 'K');
    lemma_parse_one_param(q, n, 'n');
    lemma_parse_one_param(q, n, 'r');
    lemma_parse_one_param(q, n, 'A');
    lemma_parse_one_param(m, n, 'c');
    lemma_parse_one_param(m, n, 'J');
}

/// Control sequences without parameters take their defaults: a count or
/// position of 1, a scrolling region from 1 to 0, window command 0.
pub proof fn law_csi_defaults()
    ensures
        parse(csi_no_param('@')) == seq![Code::<Seq<char>>::InsertBlankCharacters(1)],
        parse(csi_no_param('A')) == seq![Code::<Seq<char>>::CursorUp(1)],
        parse(csi_no_param('B')) == seq![Code::<Seq<char>>::CursorDown(1)],
        parse(csi_no_param('C')) == seq![Code::<Seq<char>>::CursorForward(1)],
        parse(csi_no_param('D')) == seq![Code::<Seq<char>>::CursorBackward(1)],
        parse(csi_no_param('E')) == seq![Code::<Seq<char>>::CursorNextLine(1)],
        parse(csi_no_param('F')) == seq![Code::<Seq<char>>::CursorPrecedingLine(1)],
        parse(csi_no_param('G')) == seq![Code::<Seq<char>>::CursorHorizontalAbsolute(1)],
        parse(csi_no_param('H')) == seq![Code::<Seq<char>>::CursorPosition { x: 1, y: 1 }],
        parse(csi_no_param('J')) == seq![Code::<Seq<char>>::EraseInDisplay(1)],
        parse(csi_no_param('K')) == seq![Code::<Seq<char>>::EraseInLine(1)],
        parse(csi_no_param('L')) == seq![Code::<Seq<char>>::InsertLines(1)],
        parse(csi_no_param('M')) == seq![Code::<Seq<char>>::DeleteLines(1)],
        parse(csi_no_param('S')) == seq![Code::<Seq<char>>::ScrollUp(1)],
        parse(csi_no_param('T')) == seq![Code::<Seq<char>>::ScrollDown(1)],
        parse(csi_no_param('r')) == seq![Code::<Seq<char>>::SetScrollingRegion { top: 1, bottom: 0 }],
        parse(csi_no_param('c')) == seq![Code::<Seq<char>>::SendPrimaryDeviceAttributes],
        parse(csi_no_param('m')) == Seq::<CodeV>::empty(),
{
    assert forall|f: char| '\x40' <= f <= '\x7E' implies #[trigger] csi_scan(seq![f]).argv
        == Seq::<u32>::empty() && csi_scan(seq![f]).final_char == f && !csi_scan(
        seq![f],
    ).question_mark && !csi_scan(seq![f]).more_mark by {
        assert(seq![f].drop_last() =~= Seq::<char>::empty());
        assert(csi_scan(Seq::<char>::empty()) == super::states::csi_start());
    }
    assert forall|f: char| '\x40' <= f <= '\x7E' implies parse(#[trigger] csi_no_param(f))
        == super::states::csi_codes(f, false, false, Seq::<u32>::empty()) by {
        lemma_parse_csi(seq![f]);
        assert(seq![ascii::ESC, '['] + seq![f] =~= csi_no_param(f));
        assert(csi_scan(seq![f]).argv == Seq::<u32>::empty());
    }
    assert(style_codes(Seq::<u32>::empty()) == Seq::<CodeV>::empty());
}

/// Each single control character in the ground state is one code, and the
/// input right after it is read again from the ground state; ESC hands the
/// next character to the escape state.
pub proof fn law_ground_controls(input: Seq<char>, pos: nat)
    requires
        pos < input.len(),
    ensures
        input[pos as int] == ascii::BEL ==> run(ParserState::Ground(Ground), input, pos) == seq![
            Code::<Seq<char>>::Bell,
        ] + run(ParserState::Ground(Ground), input, pos + 1),
        input[pos as int] == ascii::BS ==> run(ParserState::Ground(Ground), input, pos) == seq![
            Code::<Seq<char>>::Backspace,
        ] + run(ParserState::Ground(Ground), input, pos + 1),
        input[pos as int] == ascii::CR ==> run(ParserState::Ground(Ground), input, pos) == seq![
            Code::<Seq<char>>::CarriageReturn,
        ] + run(ParserState::Ground(Ground), input, pos + 1),
        input[pos as int] == ascii::ENQ ==> run(ParserState::Ground(Ground), input, pos) == seq![
            Code::<Seq<char>>::ReturnTerminalStatus,
        ] + run(ParserState::Ground(Ground), input, pos + 1),
        input[pos as int] == ascii::FF || input[pos as int] == ascii::LF || input[pos as int]
            == ascii::VT ==> run(ParserState::Ground(Ground), input, pos) == seq![
            Code::<Seq<char>>::NewLine,
        ] + run(ParserState::Ground(Ground), input, pos + 1),
        input[pos as int] == ascii::SI ==> run(ParserState::Ground(Ground), input, pos) == seq![
            Code::<Seq<char>>::MapCharsetToGL(0),
        ] + run(ParserState::Ground(Ground), input, pos + 1),
        input[pos as int] == ascii::SO ==> run(ParserState::Ground(Ground), input, pos) == seq![
            Code::<Seq<char>>::MapCharsetToGL(1),
        ] + run(ParserState::Ground(Ground), input, pos + 1),
        input[pos as int] == ascii::HT ==> run(ParserState::Ground(Ground), input, pos) == seq![
            Code::<Seq<char>>::HorizontalTab,
        ] + run(ParserState::Ground(Ground), input, pos + 1),
        input[pos as int] == ascii::ESC ==> run(ParserState::Ground(Ground), input, pos) == run(
            ParserState::EscapeSeq(super::states::EscapeSeq),
            input,
            pos + 1,
        ),
        ground_control(input[pos as int]) is Some ==> step(
            ParserState::Ground(Ground),
            input,
            pos,
        ).pos == pos + 1,
{
}

/// Input that is all text characters from `pos` to its end is one `Chars`
/// code from the ground state.
proof fn lemma_ground_plain_suffix(input: Seq<char>, pos: nat)
    requires
        pos < input.len(),
        forall|i: int| pos <= i < input.len() ==> is_text_char(#[trigger] input[i]),
    ensures
        run(ParserState::Ground(Ground), input, pos) == seq![
            Code::Chars(input.subrange(pos as int, input.len() as int)),
        ],
{
    lemma_text_char_not_control(input[pos as int]);
    let rest = input.skip(pos + 1int);
    assert forall|i: int| 0 <= i < rest.len() implies is_text_char(#[trigger] rest[i]) by {
        assert(rest[i] == input[pos + 1 + i]);
    }
    lemma_text_run_unique(rest, rest.len() as int);
    lemma_ground_at_end(input);
    let c: CodeV = Code::Chars(input.subrange(pos as int, input.len() as int));
    assert(run(ParserState::Ground(Ground), input, pos) == seq![c] + Seq::<CodeV>::empty());
}

/// ESC followed by a character that starts no longer sequence is one escape
/// code (or none), after which the parser is back in the ground state: the
/// next character is read as input again.
pub proof fn law_escape_single(input: Seq<char>, pos: nat)
    requires
        pos < input.len(),
    ensures
        ({
            let x = input[pos as int];
            let esc = ParserState::EscapeSeq(super::states::EscapeSeq);
            let ground = ParserState::Ground(Ground);
            &&& x != '[' && x != ']' && !super::states::is_two_char_intro(x) ==> step(
                esc,
                input,
                pos,
            ).next == Some(ground) && step(esc, input, pos).pos == pos + 1 && run(esc, input, pos)
                == super::states::escape_codes(x) + run(ground, input, pos + 1)
            &&& x == 'D' ==> run(esc, input, pos) == seq![Code::<Seq<char>>::Index] + run(
                ground,
                input,
                pos + 1,
            )
            &&& x == 'E' ==> run(esc, input, pos) == seq![Code::<Seq<char>>::NextLine] + run(
                ground,
                input,
                pos + 1,
            )
            &&& x == 'H' ==> run(esc, input, pos) == seq![Code::<Seq<char>>::HorizontalTabSet]
                + run(ground, input, pos + 1)
            &&& x == 'M' ==> run(esc, input, pos) == seq![Code::<Seq<char>>::ReverseIndex] + run(
                ground,
                input,
                pos + 1,
            )
            &&& x == 'N' ==> run(esc, input, pos) == seq![Code::<Seq<char>>::SingleShiftSelect(2)]
                + run(ground, input, pos + 1)
            &&& x == 'O' ==> run(esc, input, pos) == seq![Code::<Seq<char>>::SingleShiftSelect(3)]
                + run(ground, input, pos + 1)
            &&& x == '6' ==> run(esc, input, pos) == seq![Code::<Seq<char>>::BackIndex] + run(
                ground,
                input,
                pos + 1,
            )
            &&& x == '7' ==> run(esc, input, pos) == seq![Code::<Seq<char>>::SaveCursor] + run(
                ground,
                input,
                pos + 1,
            )
            &&& x == '8' ==> run(esc, input, pos) == seq![Code::<Seq<char>>::RestoreCursor] + run(
                ground,
                input,
                pos + 1,
            )
            &&& x == '9' ==> run(esc, input, pos) == seq![Code::<Seq<char>>::ForwardIndex] + run(
                ground,
                input,
                pos + 1,
            )
            &&& x == '=' ==> run(esc, input, pos) == seq![Code::<Seq<char>>::ApplicationKeypad]
                + run(ground, input, pos + 1)
            &&& x == '>' ==> run(esc, input, pos) == seq![Code::<Seq<char>>::NormalKeypad] + run(
                ground,
                input,
                pos + 1,
            )
            &&& x == 'F' ==> run(esc, input, pos) == seq![Code::<Seq<char>>::CursorToLowerLeft]
                + run(ground, input, pos + 1)
            &&& x == 'c' ==> run(esc, input, pos) == seq![Code::<Seq<char>>::FullReset] + run(
                ground,
                input,
                pos + 1,
            )
            &&& x == 'n' ==> run(esc, input, pos) == seq![Code::<Seq<char>>::MapCharsetToGL(2)]
                + run(ground, input, pos + 1)
            &&& x == 'o' ==> run(esc, input, pos) == seq![Code::<Seq<char>>::MapCharsetToGL(3)]
                + run(ground, input, pos + 1)
            &&& x == '|' ==> run(esc, input, pos) == seq![Code::<Seq<char>>::MapCharsetToGR(3)]
                + run(ground, input, pos + 1)
            &&& x == '}' ==> run(esc, input, pos) == seq![Code::<Seq<char>>::MapCharsetToGR(2)]
                + run(ground, input, pos + 1)
            &&& x == '~' ==> run(esc, input, pos) == seq![Code::<Seq<char>>::MapCharsetToGL(1)]
                + run(ground, input, pos + 1)
            &&& x == '[' ==> run(esc, input, pos) == run(
                ParserState::ControlSequence(super::states::ControlSequence),
                input,
                pos + 1,
            )
            &&& x == ']' ==> run(esc, input, pos) == run(
                ParserState::SystemCommandSequence(super::states::SystemCommandSequence),
                input,
                pos + 1,
            )
            &&& super::states::is_two_char_intro(x) ==> run(esc, input, pos) == run(
                ParserState::TwoCharSequence(super::states::TwoCharSequence { first: x }),
                input,
                pos + 1,
            )
        }),
{
}

/// ESC and a character that starts no longer sequence, then plain text: the
/// escape code (if any), then the text as one `Chars` code.
pub proof fn law_escape_then_text(x: char, t: Seq<char>)
    requires
        x != '[' && x != ']' && !super::states::is_two_char_intro(x),
        forall|i: int| 0 <= i < t.len() ==> is_text_char(#[trigger] t[i]),
    ensures
        t.len() > 0 ==> parse(seq![ascii::ESC, x] + t) == super::states::escape_codes(x) + seq![
            Code::Chars(t),
        ],
        t.len() == 0 ==> parse(seq![ascii::ESC, x] + t) == super::states::escape_codes(x),
        x == '7' && t.len() > 0 ==> parse(seq![ascii::ESC, x] + t) == seq![
            Code::<Seq<char>>::SaveCursor,
            Code::Chars(t),
        ],
{
    let input = seq![ascii::ESC, x] + t;
    assert(input[0] == ascii::ESC && input[1] == x);
    let esc = ParserState::EscapeSeq(super::states::EscapeSeq);
    let ground = ParserState::Ground(Ground);
    law_escape_single(input, 1);
    assert(parse(input) == Seq::<CodeV>::empty() + run(esc, input, 1));
    assert(Seq::<CodeV>::empty() + run(esc, input, 1) == run(esc, input, 1));
    if t.len() > 0 {
        assert forall|i: int| 2 <= i < input.len() implies is_text_char(#[trigger] input[i]) by {
            assert(input[i] == t[i - 2]);
        }
        lemma_ground_plain_suffix(input, 2);
        assert(input.subrange(2, input.len() as int) =~= t);
    } else {
        lemma_ground_at_end(input);
        assert(super::states::escape_codes(x) + Seq::<CodeV>::empty() == super::states::escape_codes(x));
    }
}

/// The second character of a two-character sequence: the charset, conformance
/// and screen-test codes, a designation of character set 0..3 for whatever
/// character follows `(`, `)`/`-`, `*`/`.`, `+`/`/`, an error holding both
/// characters otherwise, and an error holding the first one at the end of
/// the input; then the ground state again.
pub proof fn law_two_char(a: char, input: Seq<char>, pos: nat)
    ensures
        ({
            let st = ParserState::TwoCharSequence(super::states::TwoCharSequence { first: a });
            let ground = ParserState::Ground(Ground);
            let b = input[pos as int];
            let after = run(ground, input, pos + 1);
            &&& pos >= input.len() ==> run(st, input, pos) == seq![Code::Error(seq![a])] + run(
                ground,
                input,
                pos,
            )
            &&& pos < input.len() ==> {
                &&& a == ' ' && b == 'F' ==> run(st, input, pos) == seq![
                    Code::<Seq<char>>::Charset7Bit,
                ] + after
                &&& a == ' ' && b == 'G' ==> run(st, input, pos) == seq![
                    Code::<Seq<char>>::Charset8Bit,
                ] + after
                &&& a == ' ' && b == 'L' ==> run(st, input, pos) == seq![
                    Code::<Seq<char>>::AnsiConformanceLevel(1),
                ] + after
                &&& a == ' ' && b == 'M' ==> run(st, input, pos) == seq![
                    Code::<Seq<char>>::AnsiConformanceLevel(2),
                ] + after
                &&& a == ' ' && b == 'N' ==> run(st, input, pos) == seq![
                    Code::<Seq<char>>::AnsiConformanceLevel(3),
                ] + after
                &&& a == '#' && b == '8' ==> run(st, input, pos) == seq![
                    Code::<Seq<char>>::FillScreenE,
                ] + after
                &&& a == '%' && b == '@' ==> run(st, input, pos) == seq![
                    Code::<Seq<char>>::SelectDefaultCharset,
                ] + after
                &&& a == '%' && b == 'G' ==> run(st, input, pos) == seq![
                    Code::<Seq<char>>::SelectUtf8Charset,
                ] + after
                &&& a == '(' ==> run(st, input, pos) == seq![
                    Code::<Seq<char>>::DesignateCharset(0, b),
                ] + after
                &&& (a == ')' || a == '-') ==> run(st, input, pos) == seq![
                    Code::<Seq<char>>::DesignateCharset(1, b),
                ] + after
                &&& (a == '*' || a == '.') ==> run(st, input, pos) == seq![
                    Code::<Seq<char>>::DesignateCharset(2, b),
                ] + after
                &&& (a == '+' || a == '/') ==> run(st, input, pos) == seq![
                    Code::<Seq<char>>::DesignateCharset(3, b),
                ] + after
                &&& (a == '$' || a == '@' || (a == ' ' && b != 'F' && b != 'G' && b != 'L' && b
                    != 'M' && b != 'N') || (a == '#' && b != '8') || (a == '%' && b != '@' && b
                    != 'G')) ==> run(st, input, pos) == seq![Code::Error(seq![a, b])] + after
            }
        }),
{
}

/// A run of plain text starts at any character from the space up and goes on
/// to the first control character below the space (or the end): it is one
/// `Chars` code, and what follows is read again from the ground state.
pub proof fn law_text_run(input: Seq<char>, pos: nat, j: nat)
    requires
        pos < j <= input.len(),
        forall|i: int| pos <= i < j ==> (#[trigger] input[i] as u32) >= 32,
        j < input.len() ==> (input[j as int] as u32) < 32,
    ensures
        run(ParserState::Ground(Ground), input, pos) == seq![
            Code::Chars(input.subrange(pos as int, j as int)),
        ] + run(ParserState::Ground(Ground), input, j),
        step(ParserState::Ground(Ground), input, pos).pos == j,
{
    assert((input[pos as int] as u32) >= 32);
    lemma_text_char_not_control(input[pos as int]);
    let rest = input.skip(pos + 1int);
    assert forall|i: int| 0 <= i < j - pos - 1 implies is_text_char(#[trigger] rest[i]) by {
        assert(rest[i] == input[pos + 1 + i]);
    }
    if j < input.len() {
        assert(rest[j - pos - 1] == input[j as int]);
    }
    lemma_text_run_unique(rest, j - pos - 1);
}

/// The codes of a control sequence with parameters `params` (runs of digits
/// each ended by `;`) and final `f`, after an optional mark.
proof fn lemma_parse_params(pfx: Seq<char>, params: Seq<Seq<char>>, f: char)
    requires
        pfx == Seq::<char>::empty() || pfx == seq!['?'] || pfx == seq!['>'],
        digit_params(params),
        '\x40' <= f <= '\x7E',
    ensures
        parse(seq![ascii::ESC, '['] + pfx + param_list(params) + seq![f])
            == super::states::csi_codes(
            f,
            csi_scan(pfx + param_list(params)).question_mark,
            csi_scan(pfx + param_list(params)).more_mark,
            param_values(params),
        ),
{
    lemma_csi_scan_params(pfx, params);
    let body = (pfx + param_list(params)).push(f);
    assert(body.drop_last() =~= pfx + param_list(params));
    assert(body.last() == f);
    lemma_parse_csi(body);
    assert(seq![ascii::ESC, '['] + pfx + param_list(params) + seq![f] =~= seq![ascii::ESC, '[']
        + body);
}

/// Two or three decimal parameters: `H` and `f` place the cursor at column
/// `x`, row `y`; `r` sets the scrolling region from `x` to `y`; the window
/// command `8;w;h` resizes the text area to width `w` and height `h`; and the
/// cursor moves take their count from the first parameter only.
pub proof fn law_csi_two_params(x: u32, y: u32, h: u32)
    ensures
        parse(seq![ascii::ESC, '['] + param_list(seq![decimal(x as nat), decimal(y as nat)])
            + seq!['H']) == seq![Code::<Seq<char>>::CursorPosition { x, y }],
        parse(seq![ascii::ESC, '['] + param_list(seq![decimal(x as nat), decimal(y as nat)])
            + seq!['f']) == seq![Code::<Seq<char>>::CursorPosition { x, y }],
        parse(seq![ascii::ESC, '['] + param_list(seq![decimal(x as nat), decimal(y as nat)])
            + seq!['r']) == seq![Code::<Seq<char>>::SetScrollingRegion { top: x, bottom: y }],
        parse(seq![ascii::ESC, '['] + param_list(seq![decimal(x as nat), decimal(y as nat)])
            + seq!['A']) == seq![Code::<Seq<char>>::CursorUp(if x == 0 { 1 } else { x })],
        parse(seq![ascii::ESC, '['] + param_list(
            seq![decimal(8), decimal(x as nat), decimal(y as nat)],
        ) + seq!['t']) == seq![Code::<Seq<char>>::Resize { width: x, height: y }],
        h != 8 ==> parse(seq![ascii::ESC, '['] + param_list(
            seq![decimal(h as nat), decimal(x as nat), decimal(y as nat)],
        ) + seq!['t']) == seq![
            Code::<Seq<char>>::Error("Unkown window manipulation command "@ + decimal(h as nat)),
        ],
{
    lemma_decimal_digits(x as nat);
    lemma_decimal_digits(y as nat);
    lemma_decimal_digits(h as nat);
    lemma_decimal_digits(8);
    let e = Seq::<char>::empty();
    assert(seq![ascii::ESC, '['] + e =~= seq![ascii::ESC, '[']);
    let two = seq![decimal(x as nat), decimal(y as nat)];
    assert(digit_params(two)) by {
        assert forall|i: int, k: int| 0 <= i < two.len() && 0 <= k < two[i].len() implies is_digit(
            #[trigger] two[i][k],
        ) by {
            if i == 0 {
                assert(is_digit(decimal(x as nat)[k]));
            } else {
                assert(is_digit(decimal(y as nat)[k]));
            }
        }
    }
    assert(param_values(two) =~= seq![x, y]);
    assert(e != seq!['?']) by {
        assert(seq!['?'].len() == 1);
    }
    lemma_parse_params(e, two, 'H');
    lemma_parse_params(e, two, 'f');
    lemma_parse_params(e, two, 'r');
    lemma_csi_scan_params(e, two);
    lemma_parse_params(e, two, 'A');
    let three = seq![decimal(8), decimal(x as nat), decimal(y as nat)];
    assert(digit_params(three)) by {
        assert forall|i: int, k: int|
            0 <= i < three.len() && 0 <= k < three[i].len() implies is_digit(
            #[trigger] three[i][k],
        ) by {
            if i == 0 {
                assert(is_digit(decimal(8)[k]));
            } else if i == 1 {
                assert(is_digit(decimal(x as nat)[k]));
            } else {
                assert(is_digit(decimal(y as nat)[k]));
            }
        }
    }
    assert(param_values(three) =~= seq![8u32, x, y]);
    lemma_parse_params(e, three, 't');
    let other = seq![decimal(h as nat), decimal(x as nat), decimal(y as nat)];
    assert(digit_params(other)) by {
        assert forall|i: int, k: int|
            0 <= i < other.len() && 0 <= k < other[i].len() implies is_digit(
            #[trigger] other[i][k],
        ) by {
            if i == 0 {
                assert(is_digit(decimal(h as nat)[k]));
            } else if i == 1 {
                assert(is_digit(decimal(x as nat)[k]));
            } else {
                assert(is_digit(decimal(y as nat)[k]));
            }
        }
    }
    assert(param_values(other) =~= seq![h, x, y]);
    lemma_parse_params(e, other, 't');
}

/// An operating system command at the start of the input, ended by ST or BEL:
/// its codes are those of the fields of its body.
proof fn lemma_parse_osc(body: Seq<char>, term: char)
    requires
        term == ascii::ST || term == ascii::BEL,
        forall|i: int| 0 <= i < body.len() ==> !is_osc_end(#[trigger] body[i]),
    ensures
        parse(seq![ascii::ESC, ']'] + body + seq![term]) == super::states::osc_codes(
            split_fields(body),
        ),
{
    let input = seq![ascii::ESC, ']'] + body + seq![term];
    let end = input.len() - 1;
    assert(input[0] == ascii::ESC);
    assert(input[1] == ']');
    assert forall|k: int| 2 <= k < end implies !is_osc_end(#[trigger] input[k]) by {
        assert(input[k] == body[k - 2]);
    }
    assert(input[end as int] == term);
    lemma_osc_end_at(input, 2, end as nat);
    assert(input.subrange(2, end as int) =~= body);
    lemma_ground_at_end(input);
    let osc = ParserState::SystemCommandSequence(super::states::SystemCommandSequence);
    let esc = ParserState::EscapeSeq(super::states::EscapeSeq);
    let codes = super::states::osc_codes(split_fields(body));
    assert(step(osc, input, 2).pos == input.len());
    assert(run(osc, input, 2) == codes + Seq::<CodeV>::empty());
    assert(run(esc, input, 1) == Seq::<CodeV>::empty() + run(osc, input, 2));
    assert(parse(input) == Seq::<CodeV>::empty() + run(esc, input, 1));
    assert(codes + Seq::<CodeV>::empty() == codes);
    assert(Seq::<CodeV>::empty() + codes == codes);
}

/// Characters with no `;` in them and no terminator.
pub open spec fn plain_field(s: Seq<char>) -> bool {
    forall|i: int| 0 <= i < s.len() ==> #[trigger] s[i] != ';' && !is_osc_end(s[i])
}

/// An operating system command `ESC ] n ; text` ended by ST or BEL, with `n`
/// a number in decimal: 0 and 2 set the window title to the text, 7 the
/// current path, any other number is an error; a first field that is not a
/// number (a character other than a digit or `+`) is an error too; and a
/// command with no `;` gives no code.
pub proof fn law_osc_fields(n: u32, first: Seq<char>, t: Seq<char>, term: char)
    requires
        term == ascii::ST || term == ascii::BEL,
        plain_field(first),
        plain_field(t),
    ensures
        parse(seq![ascii::ESC, ']'] + decimal(n as nat) + seq![';'] + t + seq![term]) == seq![
            if n == 0 || n == 2 {
                Code::WindowTitle(t)
            } else if n == 7 {
                Code::CurrentPath(t)
            } else {
                Code::Error("Unrecognized system command "@)
            },
        ],
        (exists|k: int| 0 <= k < first.len() && !is_digit(#[trigger] first[k]) && first[k] != '+')
            ==> parse(seq![ascii::ESC, ']'] + first + seq![';'] + t + seq![term]) == seq![
            Code::<Seq<char>>::Error("Cant parse system command"@),
        ],
        parse(seq![ascii::ESC, ']'] + t + seq![term]) == Seq::<CodeV>::empty(),
{
    crate::text::law_decimal_round_trip(n);
    lemma_decimal_digits(n as nat);
    let d = decimal(n as nat);
    assert(plain_field(d)) by {
        assert forall|i: int| 0 <= i < d.len() implies #[trigger] d[i] != ';' && !is_osc_end(d[i]) by {
            assert(is_digit(d[i]));
        }
    }
    lemma_osc_two_fields(d, t, term);
    assert(seq![ascii::ESC, ']'] + d + seq![';'] + t + seq![term] =~= seq![ascii::ESC, ']'] + (d
        + seq![';'] + t) + seq![term]);
    lemma_osc_two_fields(first, t, term);
    assert(seq![ascii::ESC, ']'] + first + seq![';'] + t + seq![term] =~= seq![ascii::ESC, ']']
        + (first + seq![';'] + t) + seq![term]);
    if exists|k: int| 0 <= k < first.len() && !is_digit(#[trigger] first[k]) && first[k] != '+' {
        let k = choose|k: int| 0 <= k < first.len() && !is_digit(#[trigger] first[k]) && first[k]
            != '+';
        let u = unsigned_digits(first);
        if first.len() > 0 && first[0] == '+' {
            assert(k > 0);
            assert(u[k - 1] == first[k]);
        } else {
            assert(u[k] == first[k]);
        }
        assert(spec_parse_u32(first) is None);
    }
    assert forall|i: int| 0 <= i < t.len() implies !is_osc_end(#[trigger] t[i]) by {
        assert(t[i] != ';' && !is_osc_end(t[i]));
    }
    lemma_parse_osc(t, term);
    lemma_split_extend(Seq::<char>::empty(), t);
    assert(Seq::<char>::empty() + t =~= t);
    assert(split_fields(Seq::<char>::empty()) == seq![Seq::<char>::empty()]);
    lemma_split_len(t);
}

/// The fields of `first ; t` are `first` and `t`, and the command's codes are
/// those of these two fields.
proof fn lemma_osc_two_fields(first: Seq<char>, t: Seq<char>, term: char)
    requires
        term == ascii::ST || term == ascii::BEL,
        plain_field(first),
        plain_field(t),
    ensures
        parse(seq![ascii::ESC, ']'] + (first + seq![';'] + t) + seq![term])
            == super::states::osc_codes(seq![first, t]),
{
    let body = first + seq![';'] + t;
    assert forall|i: int| 0 <= i < body.len() implies !is_osc_end(#[trigger] body[i]) by {
        if i < first.len() {
            assert(body[i] == first[i]);
            assert(first[i] != ';' && !is_osc_end(first[i]));
        } else if i > first.len() {
            assert(body[i] == t[i - first.len() - 1]);
            assert(t[i - first.len() - 1] != ';' && !is_osc_end(t[i - first.len() - 1]));
        }
    }
    lemma_parse_osc(body, term);
    assert forall|i: int| 0 <= i < first.len() implies #[trigger] first[i] != ';' by {
        assert(first[i] != ';' && !is_osc_end(first[i]));
    }
    assert forall|i: int| 0 <= i < t.len() implies #[trigger] t[i] != ';' by {
        assert(t[i] != ';' && !is_osc_end(t[i]));
    }
    lemma_split_extend(Seq::<char>::empty(), first);
    assert(Seq::<char>::empty() + first =~= first);
    assert(split_fields(Seq::<char>::empty()) == seq![Seq::<char>::empty()]);
    assert(split_fields(first) =~= seq![first]);
    let head = first.push(';');
    assert(head.drop_last() =~= first);
    assert(head.last() == ';');
    assert(split_fields(head) =~= seq![first, Seq::<char>::empty()]);
    lemma_split_extend(head, t);
    assert(head + t =~= body);
    assert(Seq::<char>::empty() + t =~= t);
    assert(split_fields(body) =~= seq![first, t]);
}

} // verus!
