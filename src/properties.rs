use vstd::prelude::*;

use crate::chars::{is_digit, is_space};
use crate::lexer::{number_tokens, scan, url_tokens, LexemView, Lexer};
use crate::number::{
    all_digits, empty_number, lemma_number_run_advances, number_run, number_transition,
    NumberState, NumberView,
};
use crate::url::{lemma_url_run_advances, url_run, url_transition, UrlState};

verus! {

/// Every character of `s` is whitespace.
pub open spec fn all_space(s: Seq<char>) -> bool {
    forall|k: int| 0 <= k < s.len() ==> is_space(#[trigger] s[k])
}

/// The scan skips a stretch of whitespace.
proof fn lemma_skip_blank(s: Seq<char>, i: nat, j: nat)
    requires
        i <= j <= s.len(),
        forall|k: int| i <= k < j ==> is_space(#[trigger] s[k]),
    ensures
        scan(s, i) == scan(s, j),
    decreases j - i,
{
    if i < j {
        lemma_skip_blank(s, i + 1, j);
    }
}

/// Text made of whitespace alone holds no token.
pub proof fn lemma_blank_text_has_no_tokens(s: Seq<char>)
    requires
        all_space(s),
    ensures
        scan(s, 0) == Seq::<LexemView>::empty(),
{
    lemma_skip_blank(s, 0, s.len());
}

/// The length of the scheme `http://`, or `https://` when `secure`.
pub open spec fn scheme_len(secure: bool) -> nat {
    if secure {
        8
    } else {
        7
    }
}

/// The character at position `k` of the scheme.
pub open spec fn scheme_char(secure: bool, k: int) -> char {
    let r = if secure && k > 4 { k - 1 } else { k };
    if k == 0 {
        'h'
    } else if k == 1 || k == 2 {
        't'
    } else if k == 3 {
        'p'
    } else if secure && k == 4 {
        's'
    } else if r == 4 {
        ':'
    } else {
        '/'
    }
}

/// The scheme `http://`, or `https://` when `secure`.
pub open spec fn scheme(secure: bool) -> Seq<char> {
    Seq::new(scheme_len(secure), |k: int| scheme_char(secure, k))
}

/// The state of the URL automaton after the first `k` characters of the scheme.
pub open spec fn scheme_state(secure: bool, k: int) -> UrlState {
    let r = if secure && k > 4 { k - 1 } else { k };
    if k == 0 {
        UrlState::Start
    } else if k == 1 {
        UrlState::H
    } else if k == 2 {
        UrlState::HT
    } else if k == 3 {
        UrlState::HTT
    } else if k == 4 {
        UrlState::HTTP
    } else if secure && k == 5 {
        UrlState::HTTPS
    } else if r == 5 {
        UrlState::Colon
    } else if r == 6 {
        UrlState::ColonSlash
    } else {
        UrlState::Done
    }
}

/// Reading the first `k` characters of a scheme leads the automaton through
/// the scheme's states.
proof fn lemma_read_scheme(s: Seq<char>, i: nat, secure: bool, k: nat)
    requires
        k <= scheme_len(secure),
        i + k <= s.len(),
        forall|j: int| 0 <= j < k ==> s[i + j] == scheme_char(secure, j),
    ensures
        url_run(s, i, UrlState::Start) == url_run(s, i + k, scheme_state(secure, k as int)),
    decreases k,
{
    if k > 0 {
        let j = (k - 1) as nat;
        lemma_read_scheme(s, i, secure, j);
        assert(s[(i + j) as int] == scheme_char(secure, j as int));
        assert(url_transition(scheme_state(secure, j as int), scheme_char(secure, j as int))
            == Some(scheme_state(secure, k as int)));
    }
}

/// From `Done`, the automaton reads up to the first whitespace or the end.
proof fn lemma_read_body(s: Seq<char>, i: nat, j: nat)
    requires
        i <= j <= s.len(),
        forall|k: int| i <= k < j ==> !is_space(#[trigger] s[k]),
        j == s.len() || is_space(s[j as int]),
    ensures
        url_run(s, i, UrlState::Done) == (j, true),
    decreases j - i,
{
    if i < j {
        lemma_read_body(s, i + 1, j);
    }
}

/// Text that holds one URL, between stretches of whitespace, scans to that
/// URL alone, without the whitespace: a URL here is the scheme `http://` or
/// `https://` followed by a body that holds no whitespace.
pub proof fn lemma_single_url(lead: Seq<char>, secure: bool, body: Seq<char>, trail: Seq<char>)
    requires
        all_space(lead),
        all_space(trail),
        forall|k: int| 0 <= k < body.len() ==> !is_space(#[trigger] body[k]),
    ensures
        scan(lead + scheme(secure) + body + trail, 0) == seq![
            LexemView::Url(scheme(secure) + body),
        ],
{
    let url = scheme(secure) + body;
    let s = lead + url + trail;
    assert(s =~= lead + scheme(secure) + body + trail);
    let a = lead.len();
    let b = a + scheme_len(secure);
    let e = b + body.len();
    assert forall|k: int| 0 <= k < a implies is_space(#[trigger] s[k]) by {
        assert(s[k] == lead[k]);
    }
    lemma_skip_blank(s, 0, a);
    assert forall|j: int| 0 <= j < scheme_len(secure) implies s[a + j] == scheme_char(
        secure,
        j,
    ) by {
        assert(s[a + j] == url[j]);
    }
    lemma_read_scheme(s, a, secure, scheme_len(secure));
    assert forall|k: int| b <= k < e implies !is_space(#[trigger] s[k]) by {
        assert(s[k] == body[k - b]);
    }
    if e < s.len() {
        assert(s[e as int] == trail[0]);
    }
    lemma_read_body(s, b, e);
    assert(s[a as int] == 'h');
    assert forall|k: int| e <= k < s.len() implies is_space(#[trigger] s[k]) by {
        assert(s[k] == trail[k - e]);
    }
    lemma_skip_blank(s, e, s.len());
    assert(s.subrange(a as int, e as int) =~= url);
    assert(url_run(s, a, UrlState::Start) == (e, true));
    assert(scan(s, e) == Seq::<LexemView>::empty());
    assert(url_tokens(s, a) == seq![LexemView::Url(url)]);
    assert(scan(s, a) == url_tokens(s, a) + scan(s, e));
    assert(scan(s, a) =~= seq![LexemView::Url(url)]);
}

/// Text that is one URL and nothing else scans to a single URL token equal
/// to the whole text.
pub proof fn lemma_url_alone(secure: bool, body: Seq<char>)
    requires
        forall|k: int| 0 <= k < body.len() ==> !is_space(#[trigger] body[k]),
    ensures
        scan(scheme(secure) + body, 0) == seq![LexemView::Url(scheme(secure) + body)],
{
    let e = Seq::<char>::empty();
    lemma_single_url(e, secure, body, e);
    assert(e + scheme(secure) + body + e =~= scheme(secure) + body);
}

/// `p` is empty or ends in whitespace: no token of a text that starts with
/// `p` runs across its end.
pub open spec fn ends_blank(p: Seq<char>) -> bool {
    p.len() == 0 || is_space(p.last())
}

/// A URL run inside `p`, which ends in whitespace, stops inside `p` and
/// does not see what follows it.
proof fn lemma_url_run_local(p: Seq<char>, t: Seq<char>, i: nat, st: UrlState)
    requires
        ends_blank(p),
        p.is_prefix_of(t),
        i < p.len(),
    ensures
        url_run(t, i, st) == url_run(p, i, st),
    decreases p.len() - i,
{
    assert(t[i as int] == p[i as int]);
    if let Some(next) = url_transition(st, p[i as int]) {
        if i + 1 < p.len() {
            lemma_url_run_local(p, t, i + 1, next);
        }
    }
}

/// A numeric run inside `p`, which ends in whitespace, stops inside `p` and
/// does not see what follows it.
proof fn lemma_number_run_local(
    p: Seq<char>,
    t: Seq<char>,
    i: nat,
    st: NumberState,
    acc: NumberView,
)
    requires
        ends_blank(p),
        p.is_prefix_of(t),
        i < p.len(),
    ensures
        number_run(t, i, st, acc) == number_run(p, i, st, acc),
    decreases p.len() - i,
{
    assert(t[i as int] == p[i as int]);
    if let Some((next, acc2)) = number_transition(st, acc, p[i as int]) {
        if i + 1 < p.len() {
            lemma_number_run_local(p, t, i + 1, next, acc2);
        }
    }
}

/// The tokens of a text that starts with `p`, which ends in whitespace, are
/// those of `p` followed by those found after it.
proof fn lemma_scan_local(p: Seq<char>, t: Seq<char>, i: nat)
    requires
        ends_blank(p),
        p.is_prefix_of(t),
        i <= p.len(),
    ensures
        scan(t, i) == scan(p, i) + scan(t, p.len()),
    decreases p.len() - i,
{
    if i == p.len() {
        assert(scan(p, i) + scan(t, i) =~= scan(t, i));
    } else {
        let c = p[i as int];
        assert(t[i as int] == c);
        if is_space(c) {
            lemma_scan_local(p, t, i + 1);
        } else if c == 'h' {
            lemma_url_run_local(p, t, i, UrlState::Start);
            lemma_url_run_advances(p, i);
            let end = url_run(p, i, UrlState::Start).0;
            assert(t.subrange(i as int, end as int) =~= p.subrange(i as int, end as int));
            assert(url_tokens(t, i) == url_tokens(p, i));
            lemma_scan_local(p, t, end);
            assert(url_tokens(p, i) + (scan(p, end) + scan(t, p.len())) =~= url_tokens(p, i)
                + scan(p, end) + scan(t, p.len()));
        } else if is_digit(c) || c == '.' || c == '-' {
            lemma_number_run_local(p, t, i, NumberState::Start, empty_number());
            lemma_number_run_advances(p, i);
            let end = number_run(p, i, NumberState::Start, empty_number()).0;
            assert(number_tokens(t, i) == number_tokens(p, i));
            lemma_scan_local(p, t, end);
            assert(number_tokens(p, i) + (scan(p, end) + scan(t, p.len())) =~= number_tokens(
                p,
                i,
            ) + scan(p, end) + scan(t, p.len()));
        } else {
            lemma_scan_local(p, t, i + 1);
        }
    }
}

/// A scheme cut short by the end of the text, after whitespace or at its
/// start, yields no token: the text scans as it would without it.
pub proof fn lemma_cut_scheme_yields_nothing(p: Seq<char>, secure: bool, k: nat)
    requires
        ends_blank(p),
        1 <= k < scheme_len(secure),
    ensures
        scan(p + scheme(secure).take(k as int), 0) == scan(p, 0),
{
    let f = scheme(secure).take(k as int);
    let t = p + f;
    assert(p.is_prefix_of(t)) by {
        assert(t.subrange(0, p.len() as int) =~= p);
    }
    lemma_scan_local(p, t, 0);
    let a = p.len();
    assert forall|j: int| 0 <= j < k implies t[a + j] == scheme_char(secure, j) by {
        assert(t[a + j] == f[j]);
    }
    lemma_read_scheme(t, a, secure, k);
    assert(t[a as int] == 'h');
    assert(url_run(t, a, UrlState::Start) == (t.len(), false));
    assert(url_tokens(t, a) == Seq::<LexemView>::empty());
    assert(scan(t, t.len()) == Seq::<LexemView>::empty());
    assert(scan(t, a) == url_tokens(t, a) + scan(t, t.len()));
    assert(scan(t, a) =~= Seq::<LexemView>::empty());
    assert(scan(p, 0) + Seq::<LexemView>::empty() =~= scan(p, 0));
}

/// Two fresh sessions that scan the same text find the same tokens: those
/// that `scan` gives for the text from its start.
pub proof fn lemma_sessions_agree(
    text: Seq<char>,
    first: Lexer,
    first_done: Lexer,
    second: Lexer,
    second_done: Lexer,
)
    requires
        first.cursor() == 0,
        first.tokens() == Seq::<LexemView>::empty(),
        second.cursor() == 0,
        second.tokens() == Seq::<LexemView>::empty(),
        first_done.tokens() == first.tokens() + scan(text, first.cursor()),
        second_done.tokens() == second.tokens() + scan(text, second.cursor()),
    ensures
        first_done.tokens() == second_done.tokens(),
        first_done.tokens() == scan(text, 0),
{
    assert(first.tokens() + scan(text, 0) =~= scan(text, 0));
}

/// The character that writes a decimal digit value.
pub open spec fn digit_char(d: u8) -> char {
    (d + 48) as char
}

/// The characters that write a sequence of digit values.
pub open spec fn digits_text(d: Seq<u8>) -> Seq<char> {
    d.map_values(|x: u8| digit_char(x))
}

/// The shortest text that the numeric recognizer reads as `v`: an optional
/// '-', the integer digits, a '.' and the fraction digits when there are
/// any, and an exponent part `e`, '-', digits when it has a sign or digits.
pub open spec fn number_text(v: NumberView) -> Seq<char> {
    sign_text(v) + digits_text(v.int_digits) + fraction_text(v) + exponent_text(v)
}

/// A literal that the recognizer accepts whole: its entries are digits, and
/// it has integer digits, or fraction digits and no sign (a '-' must be
/// followed by a digit).
pub open spec fn well_formed_number(v: NumberView) -> bool {
    &&& v.wf()
    &&& (v.int_digits.len() > 0 || (!v.negative && v.frac_digits.len() > 0))
}

/// `acc` with `d` appended to the digits that state `st` collects.
pub open spec fn with_digits(st: NumberState, acc: NumberView, d: Seq<u8>) -> NumberView {
    match st {
        NumberState::Integer => NumberView { int_digits: acc.int_digits + d, ..acc },
        NumberState::Fraction => NumberView { frac_digits: acc.frac_digits + d, ..acc },
        _ => NumberView { exp_digits: acc.exp_digits + d, ..acc },
    }
}

/// A state that, on a digit, moves to (or stays in) the collecting state `to`.
pub open spec fn leads_to(from: NumberState, to: NumberState) -> bool {
    ||| from == to && (to == NumberState::Integer || to == NumberState::Fraction || to
        == NumberState::Exponent)
    ||| to == NumberState::Integer && (from == NumberState::Start || from == NumberState::Sign)
    ||| to == NumberState::Fraction && from == NumberState::DecimalPoint
}

/// Reading the first `k` digits of `d` from state `from` collects them in
/// state `to`.
proof fn lemma_read_digits(
    s: Seq<char>,
    i: nat,
    from: NumberState,
    to: NumberState,
    acc: NumberView,
    d: Seq<u8>,
    k: nat,
)
    requires
        leads_to(from, to),
        all_digits(d),
        k <= d.len(),
        i + d.len() <= s.len(),
        s.subrange(i as int, (i + d.len()) as int) == digits_text(d),
    ensures
        number_run(s, i, from, acc) == number_run(
            s,
            i + k,
            if k > 0 {
                to
            } else {
                from
            },
            with_digits(to, acc, d.take(k as int)),
        ),
    decreases k,
{
    if k == 0 {
        assert(with_digits(to, acc, d.take(0)) =~= acc) by {
            assert(acc.int_digits + d.take(0) =~= acc.int_digits);
            assert(acc.frac_digits + d.take(0) =~= acc.frac_digits);
            assert(acc.exp_digits + d.take(0) =~= acc.exp_digits);
        }
    } else {
        let j = (k - 1) as nat;
        lemma_read_digits(s, i, from, to, acc, d, j);
        let c = s[(i + j) as int];
        assert(c == s.subrange(i as int, (i + d.len()) as int)[j as int]);
        assert(c == digit_char(d[j as int]));
        assert(d[j as int] < 10);
        let cur = if j > 0 {
            to
        } else {
            from
        };
        let before = with_digits(to, acc, d.take(j as int));
        let after = with_digits(to, acc, d.take(k as int));
        assert(d.take(k as int) =~= d.take(j as int).push(d[j as int]));
        assert(acc.int_digits + d.take(k as int) =~= (acc.int_digits + d.take(j as int)).push(
            d[j as int],
        ));
        assert(acc.frac_digits + d.take(k as int) =~= (acc.frac_digits + d.take(j as int)).push(
            d[j as int],
        ));
        assert(acc.exp_digits + d.take(k as int) =~= (acc.exp_digits + d.take(j as int)).push(
            d[j as int],
        ));
        assert(number_transition(cur, before, c) == Some((to, after)));
    }
}

/// The optional '-' of a literal.
pub open spec fn sign_text(v: NumberView) -> Seq<char> {
    if v.negative {
        seq!['-']
    } else {
        Seq::empty()
    }
}

/// The '.' and fraction digits of a literal, when it has any.
pub open spec fn fraction_text(v: NumberView) -> Seq<char> {
    if v.frac_digits.len() > 0 {
        seq!['.'] + digits_text(v.frac_digits)
    } else {
        Seq::empty()
    }
}

/// The exponent part of a literal, when it has a sign or digits.
pub open spec fn exponent_text(v: NumberView) -> Seq<char> {
    if v.exp_negative || v.exp_digits.len() > 0 {
        seq!['e'] + (if v.exp_negative {
            seq!['-']
        } else {
            Seq::empty()
        }) + digits_text(v.exp_digits)
    } else {
        Seq::empty()
    }
}

/// `s` holds `w` from position `i` on.
pub open spec fn holds_at(s: Seq<char>, i: nat, w: Seq<char>) -> bool {
    i + w.len() <= s.len() && s.subrange(i as int, (i + w.len()) as int) == w
}

/// Reading the sign and integer digits of `v`.
proof fn lemma_read_integer_part(s: Seq<char>, i: nat, v: NumberView)
    requires
        well_formed_number(v),
        holds_at(s, i, sign_text(v) + digits_text(v.int_digits)),
    ensures
        number_run(s, i, NumberState::Start, empty_number()) == number_run(
            s,
            i + sign_text(v).len() + v.int_digits.len(),
            if v.int_digits.len() > 0 {
                NumberState::Integer
            } else {
                NumberState::Start
            },
            NumberView { negative: v.negative, int_digits: v.int_digits, ..empty_number() },
        ),
{
    let w = sign_text(v) + digits_text(v.int_digits);
    let after_sign = i + sign_text(v).len();
    let acc1 = NumberView { negative: v.negative, ..empty_number() };
    let st1 = if v.negative {
        NumberState::Sign
    } else {
        NumberState::Start
    };
    if v.negative {
        assert(s[i as int] == w[0]);
    }
    assert(number_run(s, i, NumberState::Start, empty_number()) == number_run(
        s,
        after_sign,
        st1,
        acc1,
    ));
    let int_end = after_sign + v.int_digits.len();
    assert(s.subrange(after_sign as int, int_end as int) =~= digits_text(v.int_digits)) by {
        assert forall|k: int| 0 <= k < v.int_digits.len() implies s[after_sign + k] == digits_text(
            v.int_digits,
        )[k] by {
            assert(s[after_sign + k] == w[sign_text(v).len() + k]);
        }
    }
    lemma_read_digits(
        s,
        after_sign,
        st1,
        NumberState::Integer,
        acc1,
        v.int_digits,
        v.int_digits.len(),
    );
    assert(v.int_digits.take(v.int_digits.len() as int) =~= v.int_digits);
    assert(with_digits(NumberState::Integer, acc1, v.int_digits) =~= NumberView {
        negative: v.negative,
        int_digits: v.int_digits,
        ..empty_number()
    });
}

/// Reading the fraction part of `v` after its integer part.
proof fn lemma_read_fraction_part(s: Seq<char>, i: nat, st: NumberState, v: NumberView)
    requires
        well_formed_number(v),
        st == NumberState::Integer || st == NumberState::Start,
        v.int_digits.len() == 0 ==> st == NumberState::Start,
        v.int_digits.len() > 0 ==> st == NumberState::Integer,
        holds_at(s, i, fraction_text(v)),
    ensures
        number_run(
            s,
            i,
            st,
            NumberView { negative: v.negative, int_digits: v.int_digits, ..empty_number() },
        ) == number_run(
            s,
            i + fraction_text(v).len(),
            if v.frac_digits.len() > 0 {
                NumberState::Fraction
            } else {
                NumberState::Integer
            },
            NumberView {
                negative: v.negative,
                int_digits: v.int_digits,
                frac_digits: v.frac_digits,
                ..empty_number()
            },
        ),
{
    let acc2 = NumberView { negative: v.negative, int_digits: v.int_digits, ..empty_number() };
    let acc3 = NumberView {
        negative: v.negative,
        int_digits: v.int_digits,
        frac_digits: v.frac_digits,
        ..empty_number()
    };
    if v.frac_digits.len() > 0 {
        let w = fraction_text(v);
        assert(s[i as int] == w[0]);
        assert(number_transition(st, acc2, '.') == Some((NumberState::DecimalPoint, acc2)));
        assert(s.subrange((i + 1) as int, (i + 1 + v.frac_digits.len()) as int) =~= digits_text(
            v.frac_digits,
        )) by {
            assert forall|k: int| 0 <= k < v.frac_digits.len() implies s[i + 1 + k]
                == digits_text(v.frac_digits)[k] by {
                assert(s[i + 1 + k] == w[1 + k]);
            }
        }
        lemma_read_digits(
            s,
            i + 1,
            NumberState::DecimalPoint,
            NumberState::Fraction,
            acc2,
            v.frac_digits,
            v.frac_digits.len(),
        );
        assert(v.frac_digits.take(v.frac_digits.len() as int) =~= v.frac_digits);
        assert(with_digits(NumberState::Fraction, acc2, v.frac_digits) =~= acc3);
    } else {
        assert(v.frac_digits =~= Seq::<u8>::empty());
        assert(acc2 =~= acc3);
    }
}

/// Reading the exponent part of `v` after its mantissa.
proof fn lemma_read_exponent_part(s: Seq<char>, i: nat, st: NumberState, v: NumberView)
    requires
        well_formed_number(v),
        st == NumberState::Integer || st == NumberState::Fraction,
        holds_at(s, i, exponent_text(v)),
    ensures
        number_run(
            s,
            i,
            st,
            NumberView {
                negative: v.negative,
                int_digits: v.int_digits,
                frac_digits: v.frac_digits,
                ..empty_number()
            },
        ) == number_run(
            s,
            i + exponent_text(v).len(),
            if v.exp_negative || v.exp_digits.len() > 0 {
                NumberState::Exponent
            } else {
                st
            },
            v,
        ),
{
    let acc3 = NumberView {
        negative: v.negative,
        int_digits: v.int_digits,
        frac_digits: v.frac_digits,
        ..empty_number()
    };
    let acc3s = NumberView { exp_negative: v.exp_negative, ..acc3 };
    if v.exp_negative || v.exp_digits.len() > 0 {
        let w = exponent_text(v);
        let q: nat = if v.exp_negative {
            i + 2
        } else {
            i + 1
        };
        assert(w[0] == 'e');
        assert(s[i as int] == w[0]);
        assert(number_transition(st, acc3, 'e') == Some((NumberState::Exponent, acc3)));
        assert(number_run(s, i, st, acc3) == number_run(s, i + 1, NumberState::Exponent, acc3));
        if v.exp_negative {
            assert(w[1] == '-');
            assert(s[(i + 1) as int] == w[1]);
            assert(number_transition(NumberState::Exponent, acc3, '-') == Some(
                (NumberState::Exponent, acc3s),
            ));
        } else {
            assert(acc3s =~= acc3);
        }
        assert(number_run(s, i, st, acc3) == number_run(s, q, NumberState::Exponent, acc3s));
        let exp_end = q + v.exp_digits.len();
        assert(s.subrange(q as int, exp_end as int) =~= digits_text(v.exp_digits)) by {
            assert forall|k: int| 0 <= k < v.exp_digits.len() implies s[q + k] == digits_text(
                v.exp_digits,
            )[k] by {
                assert(s[q + k] == w[q - i + k]);
            }
        }
        lemma_read_digits(
            s,
            q,
            NumberState::Exponent,
            NumberState::Exponent,
            acc3s,
            v.exp_digits,
            v.exp_digits.len(),
        );
        assert(v.exp_digits.take(v.exp_digits.len() as int) =~= v.exp_digits);
        assert(with_digits(NumberState::Exponent, acc3s, v.exp_digits) =~= v);
    } else {
        assert(v.exp_digits =~= Seq::<u8>::empty());
        assert(acc3 =~= v);
    }
}

/// A well-formed numeric literal between stretches of whitespace scans to a
/// single number token that holds exactly its sign and digits.
pub proof fn lemma_single_number(lead: Seq<char>, v: NumberView, trail: Seq<char>)
    requires
        all_space(lead),
        all_space(trail),
        well_formed_number(v),
    ensures
        scan(lead + number_text(v) + trail, 0) == seq![LexemView::Number(v)],
{
    let t = number_text(v);
    let ipart = sign_text(v) + digits_text(v.int_digits);
    let s = lead + t + trail;
    let a = lead.len();
    let after_int = a + ipart.len();
    let after_frac = after_int + fraction_text(v).len();
    let e = a + t.len();
    assert(t =~= ipart + fraction_text(v) + exponent_text(v));
    assert(s =~= lead + ipart + fraction_text(v) + exponent_text(v) + trail);
    assert forall|k: int| 0 <= k < a implies is_space(#[trigger] s[k]) by {
        assert(s[k] == lead[k]);
    }
    lemma_skip_blank(s, 0, a);
    assert(s.subrange(a as int, after_int as int) =~= ipart);
    lemma_read_integer_part(s, a, v);
    let st2 = if v.int_digits.len() > 0 {
        NumberState::Integer
    } else {
        NumberState::Start
    };
    assert(s.subrange(after_int as int, after_frac as int) =~= fraction_text(v));
    lemma_read_fraction_part(s, after_int, st2, v);
    let st3 = if v.frac_digits.len() > 0 {
        NumberState::Fraction
    } else {
        NumberState::Integer
    };
    assert(s.subrange(after_frac as int, e as int) =~= exponent_text(v));
    lemma_read_exponent_part(s, after_frac, st3, v);
    let st4 = if v.exp_negative || v.exp_digits.len() > 0 {
        NumberState::Exponent
    } else {
        st3
    };
    assert(number_run(s, a, NumberState::Start, empty_number()) == number_run(s, e, st4, v));
    if e < s.len() {
        assert(s[e as int] == trail[0]);
    }
    assert(number_run(s, e, st4, v) == (e, v));
    assert(s[a as int] == t[0]);
    assert(number_tokens(s, a) == seq![LexemView::Number(v)]);
    assert forall|k: int| e <= k < s.len() implies is_space(#[trigger] s[k]) by {
        assert(s[k] == trail[k - e]);
    }
    lemma_skip_blank(s, e, s.len());
    assert(scan(s, a) == number_tokens(s, a) + scan(s, e));
    assert(scan(s, a) =~= seq![LexemView::Number(v)]);
}

} // verus!
