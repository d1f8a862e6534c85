//! Format laws that relate the codec's specifications.

use vstd::prelude::*;
use crate::encoder::{
    spec_enc_array, spec_enc_value, spec_is_container, spec_is_tabular, spec_join, spec_prim_parts,
};
use crate::lexer::{spec_lex_from, spec_scan_token, spec_tokenize, spec_unq_end};
use crate::number::{
    lemma_digits_chars, lemma_digits_len, lemma_val_concat, spec_digit_val, spec_digits,
    spec_compress_number, spec_digits_end, spec_digits_val, spec_expand_number, spec_frac_seq,
    spec_is_ascii_ws, spec_is_digit, spec_parse_dec, spec_plain_number, spec_pow10, spec_sign,
    spec_trim,
    spec_trim_end, spec_trim_start, Number, MANT_LIMIT, SCALE_LIMIT,
};
use crate::parser::{sp_parse, sp_skip_nl, sp_value};
use crate::types::{NeonDecodeOptions, NeonEncodeOptions, TokenType};
use crate::value::ValueModel;

verus! {

/// The elements of a primitive array are encoded one by one, each at
/// the root level.
pub proof fn lemma_prim_parts_index(a: Seq<ValueModel>, opts: NeonEncodeOptions)
    ensures
        spec_prim_parts(a, opts).len() == a.len(),
        forall|i: int|
            0 <= i < a.len() ==> spec_prim_parts(a, opts)[i] == spec_enc_value(
                #[trigger] a[i],
                opts,
                0,
            ),
    decreases a.len(),
{
    if a.len() > 0 {
        lemma_prim_parts_index(a.drop_last(), opts);
        assert forall|i: int|
            0 <= i < a.len() implies spec_prim_parts(a, opts)[i] == spec_enc_value(
            #[trigger] a[i],
            opts,
            0,
        ) by {
            if i < a.len() - 1 {
                assert(a[i] == a.drop_last()[i]);
                assert(spec_prim_parts(a, opts)[i] == spec_prim_parts(a.drop_last(), opts)[i]);
            } else {
                assert(a[i] == a.last());
            }
        }
    }
}

/// A non-empty array of non-container values is laid out inline: the
/// `#` sigil, the decimal length, a space, and the encoded elements
/// joined by the delimiter — whatever the nesting level.
pub proof fn lemma_primitive_array_layout(a: Seq<ValueModel>, opts: NeonEncodeOptions, depth: nat)
    requires
        a.len() > 0,
        forall|i: int| 0 <= i < a.len() ==> !spec_is_container(#[trigger] a[i]),
    ensures
        spec_enc_array(a, opts, depth) == seq!['#'] + spec_digits(a.len()) + seq![' ']
            + spec_join(spec_prim_parts(a, opts), seq![opts.delimiter]),
        spec_prim_parts(a, opts).len() == a.len(),
        forall|i: int|
            0 <= i < a.len() ==> spec_prim_parts(a, opts)[i] == spec_enc_value(
                #[trigger] a[i],
                opts,
                0,
            ),
{
    assert(!spec_is_tabular(a)) by {
        assert(!spec_is_container(a[0]));
    }
    lemma_prim_parts_index(a, opts);
}

/// Null encodes as `N` when null compression is on and as `null`
/// when it is off, whatever the other options and the nesting level.
pub proof fn lemma_null_encoding(opts: NeonEncodeOptions, depth: nat)
    ensures
        opts.compress_nulls ==> spec_enc_value(ValueModel::Null, opts, depth) == seq!['N'],
        !opts.compress_nulls ==> spec_enc_value(ValueModel::Null, opts, depth) == seq![
            'n',
            'u',
            'l',
            'l',
        ],
{
}

/// Nesting past the configured bound is refused: a value parse
/// entered at or beyond `max_depth` open containers is exactly the
/// `MaxDepth` error, whatever the tokens.
pub proof fn lemma_max_depth_refused(
    toks: Seq<crate::types::TokenModel>,
    i: nat,
    depth: nat,
    opts: NeonDecodeOptions,
)
    requires
        depth >= opts.max_depth,
    ensures
        sp_value(toks, i, depth, opts) == Err::<(ValueModel, nat), crate::error::ErrorModel>(
            crate::error::ErrorModel::MaxDepth(opts.max_depth as nat),
        ),
{
}

/// Magnitude compression is lossless on whole multiples: a
/// non-negative integer that is an exact multiple of its unit (and
/// below the next unit) compresses to the quotient with the unit's
/// suffix, and expanding that text restores the number.
pub proof fn lemma_suffix_round_trip(n: Number, e: nat, suffix: char)
    requires
        n.wf(),
        !n.neg,
        n.scale == 0,
        (e == 3 && suffix == 'K') || (e == 6 && suffix == 'M') || (e == 9 && suffix == 'B') || (e
            == 12 && suffix == 'T'),
        (n.mant as nat) % spec_pow10(e) == 0,
        spec_pow10(e) <= n.mant as nat,
        e < 12 ==> (n.mant as nat) < spec_pow10(e + 3),
    ensures
        spec_compress_number(n, true) == spec_digits((n.mant as nat) / spec_pow10(e)) + seq![
            suffix,
        ],
        spec_expand_number(spec_compress_number(n, true)) == n,
{
    let m = n.mant as nat;
    let p = spec_pow10(e);
    crate::number::lemma_pow10_pos(e);
    // the higher thresholds are not reached and this one is
    if e < 12 {
        crate::number::lemma_pow10_mono(e + 3, 12);
        if e <= 6 {
            crate::number::lemma_pow10_mono(e + 3, 9);
        }
        if e == 3 {
            crate::number::lemma_pow10_mono(e + 3, 6);
        }
    }
    assert(spec_compress_number(n, true) == crate::number::spec_suffixed(n, e, suffix));
    assert(spec_sign(false) =~= Seq::<char>::empty());
    let q = m / p;
    let s = spec_compress_number(n, true);
    assert(s =~= spec_digits(q) + seq![suffix]);
    // expanding: the suffix comes off and the digits read back
    lemma_digits_chars(q);
    assert(s[0] == spec_digits(q)[0]);
    assert(s.last() == suffix);
    assert(!spec_is_ascii_ws(s[0]));
    assert(!spec_is_ascii_ws(suffix));
    lemma_trim_noop(s);
    assert(crate::number::spec_suffix_exp(suffix) == e);
    assert(s.drop_last() =~= spec_digits(q));
    lemma_digits_end_stops(spec_digits(q), 0, spec_digits(q).len());
    let pd = spec_parse_dec(spec_digits(q));
    assert(pd.valid && !pd.neg && pd.mant == q && pd.scale == 0);
    vstd::arithmetic::div_mod::lemma_fundamental_div_mod(m as int, p as int);
    assert(q * p == p * q) by (nonlinear_arith);
    assert(q * p == m);
    assert(m != 0 && m < MANT_LIMIT);
    assert(crate::number::spec_norm(m, 0) == (m, 0nat));
    assert(spec_expand_number(s) == n);
}

/// Encoding is idempotent across a round trip for the literals and,
/// with number compression off, for well-formed non-negative
/// numbers: decoding the text and encoding again reproduces it.
pub proof fn lemma_encode_stable(v: ValueModel, eo: NeonEncodeOptions, dopts: NeonDecodeOptions)
    requires
        dopts.max_depth >= 1,
        v is Null || v is Bool || (v matches ValueModel::Num(n) && n.wf() && !n.neg
            && !eo.compress_numbers),
    ensures
        ({
            let text = spec_enc_value(v, eo, 0);
            &&& sp_parse(spec_tokenize(text), dopts) == Ok::<ValueModel, crate::error::ErrorModel>(
                v,
            )
            &&& (sp_parse(spec_tokenize(text), dopts) matches Ok(v2) && spec_enc_value(v2, eo, 0)
                == text)
        }),
{
    if v is Null || v is Bool {
        lemma_literal_round_trip(v, eo, dopts);
    } else {
        match v {
            ValueModel::Num(n) => {
                lemma_number_round_trip(n, eo, dopts);
            },
            _ => {},
        }
    }
}

/// A digit run ends exactly where the digits end.
proof fn lemma_digits_end_stops(s: Seq<char>, i: nat, e: nat)
    requires
        i <= e <= s.len(),
        forall|j: int| i <= j < e ==> spec_is_digit(#[trigger] s[j]),
        e == s.len() || !spec_is_digit(s[e as int]),
    ensures
        spec_digits_end(s, i) == e,
    decreases e - i,
{
    if i < e {
        lemma_digits_end_stops(s, i + 1, e);
    }
}

/// A string of zero digits has value zero.
proof fn lemma_val_zeros(s: Seq<char>)
    requires
        forall|j: int| 0 <= j < s.len() ==> #[trigger] s[j] == '0',
    ensures
        spec_digits_val(s) == 0,
        forall|j: int| 0 <= j < s.len() ==> spec_is_digit(#[trigger] s[j]),
    decreases s.len(),
{
    if s.len() > 0 {
        assert forall|j: int| 0 <= j < s.drop_last().len() implies #[trigger] s.drop_last()[j]
            == '0' by {
            assert(s.drop_last()[j] == s[j]);
        }
        lemma_val_zeros(s.drop_last());
        assert(spec_digit_val('0') == 0);
    }
}

/// Trimming leaves a text that neither starts nor ends with
/// whitespace alone.
proof fn lemma_trim_noop(s: Seq<char>)
    requires
        s.len() > 0,
        !spec_is_ascii_ws(s[0]),
        !spec_is_ascii_ws(s.last()),
    ensures
        spec_trim(s) == s,
{
    assert(spec_trim_start(s) == s);
    assert(spec_trim_end(s) == s);
}

/// Reading back the plain decimal text of a well-formed number
/// recovers the number exactly: the uncompressed rendering loses
/// nothing.
#[verifier::rlimit(100)]
pub proof fn lemma_plain_number_round_trip(n: Number)
    requires
        n.wf(),
    ensures
        spec_expand_number(spec_plain_number(n)) == n,
{
    let s = spec_plain_number(n);
    let m = n.mant as nat;
    let sc = n.scale as nat;
    if sc == 0 {
        let ds = spec_digits(m);
        lemma_digits_chars(m);
        assert(s == spec_sign(n.neg) + ds);
        // shape facts
        if n.neg {
            assert(s[0] == '-');
            assert(s.drop_first() =~= ds);
        } else {
            assert(s =~= ds);
            assert(s[0] == ds[0]);
        }
        assert(s.last() == ds.last());
        assert(spec_is_digit(ds.last()));
        lemma_trim_noop(s);
        assert(crate::number::spec_suffix_exp(s.last()) == 0);
        let b = if n.neg {
            s.drop_first()
        } else {
            s
        };
        assert(b =~= ds);
        lemma_digits_end_stops(b, 0, b.len());
        let p = spec_parse_dec(s);
        assert(p.valid && p.neg == n.neg && p.mant == m && p.scale == 0);
        if m == 0 {
            assert(!n.neg && n.scale == 0);
            assert(spec_expand_number(s) == Number::spec_zero());
        } else {
            assert(crate::number::spec_norm(m, 0) == (m, 0nat));
            assert(spec_expand_number(s) == n);
        }
    } else {
        let p10 = spec_pow10(sc);
        crate::number::lemma_pow10_pos(sc);
        let ip = m / p10;
        let fp = m % p10;
        let ids = spec_digits(ip);
        let fds = spec_digits(fp);
        lemma_digits_chars(ip);
        lemma_digits_chars(fp);
        vstd::arithmetic::div_mod::lemma_fundamental_div_mod(m as int, p10 as int);
        assert(fp < p10);
        lemma_digits_len(fp, sc);
        let zeros = Seq::new((n.scale - fds.len()) as nat, |i: int| '0');
        assert(spec_frac_seq(n) == zeros + fds);
        assert(s == spec_sign(n.neg) + ids + seq!['.'] + (zeros + fds));
        let body = ids + seq!['.'] + (zeros + fds);
        let b = if n.neg {
            s.drop_first()
        } else {
            s
        };
        assert(b =~= body);
        if n.neg {
            assert(s[0] == '-');
        } else {
            assert(s[0] == ids[0]);
        }
        // last character is a fraction digit
        assert(fds.len() > 0);
        assert(s.last() == fds.last());
        assert(spec_is_digit(fds.last()));
        lemma_trim_noop(s);
        assert(crate::number::spec_suffix_exp(s.last()) == 0);
        // the integer digit run stops at the dot
        let dlen = ids.len();
        assert forall|j: int| 0 <= j < dlen implies spec_is_digit(#[trigger] b[j]) by {
            assert(b[j] == ids[j]);
        }
        assert(b[dlen as int] == '.');
        assert(!spec_is_digit('.'));
        lemma_digits_end_stops(b, 0, dlen as nat);
        // the fraction digit run reaches the end
        lemma_val_zeros(zeros);
        assert forall|j: int| dlen + 1 <= j < b.len() implies spec_is_digit(#[trigger] b[j]) by {
            let fr = zeros + fds;
            assert(b[j] == fr[j - dlen - 1]);
            if j - dlen - 1 < zeros.len() {
                assert(fr[j - dlen - 1] == zeros[j - dlen - 1]);
            } else {
                assert(fr[j - dlen - 1] == fds[j - dlen - 1 - zeros.len()]);
            }
        }
        lemma_digits_end_stops(b, dlen + 1, b.len());
        let p = spec_parse_dec(s);
        let ints = b.subrange(0, dlen as int);
        let fracs = b.subrange(dlen as int + 1, b.len() as int);
        assert(ints =~= ids);
        assert(fracs =~= zeros + fds);
        assert(fracs.len() == sc);
        lemma_val_concat(zeros, fds);
        assert(spec_digits_val(zeros) * spec_pow10(fds.len()) == 0) by (nonlinear_arith)
            requires
                spec_digits_val(zeros) == 0,
        ;
        assert(spec_digits_val(fracs) == fp);
        assert(p.valid && p.neg == n.neg && p.scale == sc);
        assert(p.mant == ip * p10 + fp);
        assert(ip * p10 == p10 * ip) by (nonlinear_arith);
        assert(p.mant == m);
        assert(m != 0);
        assert(m % 10 != 0);
        assert(crate::number::spec_norm(m, sc) == (m, sc));
        assert(m < MANT_LIMIT && sc <= SCALE_LIMIT);
        assert(spec_expand_number(s) == n);
    }
}

/// The plain decimal text of a well-formed non-negative number spans
/// one whole number token.
proof fn lemma_number_span(n: Number)
    requires
        n.wf(),
        !n.neg,
    ensures
        ({
            let s = spec_plain_number(n);
            &&& s.len() > 0
            &&& spec_is_digit(s[0])
            &&& crate::lexer::spec_number_end(s, 0) == s.len()
        }),
{
    let s = spec_plain_number(n);
    let m = n.mant as nat;
    let sc = n.scale as nat;
    assert(spec_sign(false) =~= Seq::<char>::empty());
    if sc == 0 {
        let ds = spec_digits(m);
        lemma_digits_chars(m);
        assert(s =~= ds);
        lemma_digits_end_stops(s, 0, s.len());
        assert(spec_digits_end(s, 0) == s.len());
    } else {
        let p10 = spec_pow10(sc);
        crate::number::lemma_pow10_pos(sc);
        let ip = m / p10;
        let fp = m % p10;
        let ids = spec_digits(ip);
        let fds = spec_digits(fp);
        lemma_digits_chars(ip);
        lemma_digits_chars(fp);
        vstd::arithmetic::div_mod::lemma_fundamental_div_mod(m as int, p10 as int);
        lemma_digits_len(fp, sc);
        let zeros = Seq::new((n.scale - fds.len()) as nat, |i: int| '0');
        assert(s =~= ids + seq!['.'] + (zeros + fds));
        let dlen = ids.len();
        assert(s[0] == ids[0]);
        assert forall|j: int| 0 <= j < dlen implies spec_is_digit(#[trigger] s[j]) by {
            assert(s[j] == ids[j]);
        }
        assert(s[dlen as int] == '.');
        lemma_digits_end_stops(s, 0, dlen as nat);
        lemma_val_zeros(zeros);
        assert forall|j: int| dlen + 1 <= j < s.len() implies spec_is_digit(#[trigger] s[j]) by {
            let fr = zeros + fds;
            assert(s[j] == fr[j - dlen - 1]);
            if j - dlen - 1 < zeros.len() {
                assert(fr[j - dlen - 1] == zeros[j - dlen - 1]);
            } else {
                assert(fr[j - dlen - 1] == fds[j - dlen - 1 - zeros.len()]);
            }
        }
        lemma_digits_end_stops(s, dlen + 1, s.len());
        assert(fds.len() > 0);
        assert(s.last() == fds.last());
        assert(spec_is_digit(s.last()));
        assert(!crate::lexer::spec_is_suffix(s.last()));
    }
}

/// Decoding the encoding of a well-formed non-negative number, with
/// number compression off, restores the value: the codec is lossless
/// on plain decimals.
#[verifier::rlimit(100)]
pub proof fn lemma_number_round_trip(n: Number, eo: NeonEncodeOptions, dopts: NeonDecodeOptions)
    requires
        n.wf(),
        !n.neg,
        !eo.compress_numbers,
        dopts.max_depth >= 1,
    ensures
        sp_parse(spec_tokenize(spec_enc_value(ValueModel::Num(n), eo, 0)), dopts) == Ok::<
            ValueModel,
            crate::error::ErrorModel,
        >(ValueModel::Num(n)),
{
    let s = spec_enc_value(ValueModel::Num(n), eo, 0);
    assert(s == spec_plain_number(n));
    lemma_number_span(n);
    lemma_plain_number_round_trip(n);
    let st = spec_scan_token(s, 0, 1, 1);
    assert(s.subrange(0, s.len() as int) =~= s);
    assert(st.token->0.token_type == TokenType::Number);
    assert(st.token->0.num == n);
    assert(st.pos == s.len());
    let toks = spec_tokenize(s);
    assert(spec_lex_from(s, st.pos, st.line, st.column).len() == 1);
    assert(toks == seq![st.token->0] + spec_lex_from(s, st.pos, st.line, st.column));
    assert(toks.len() == 2);
    assert(toks[0].token_type == TokenType::Number);
    assert(toks[1].token_type == TokenType::Eof);
    assert(sp_skip_nl(toks, 0) == 0);
    assert(sp_value(toks, 0, 0, dopts) == Ok::<(ValueModel, nat), crate::error::ErrorModel>(
        (ValueModel::Num(n), 1),
    ));
}

/// Escaping processes the first character first.
proof fn lemma_escape_front(s: Seq<char>)
    requires
        s.len() > 0,
    ensures
        crate::encoder::spec_escape(s) == crate::encoder::spec_esc_char(s[0])
            + crate::encoder::spec_escape(s.drop_first()),
    decreases s.len(),
{
    if s.len() == 1 {
        assert(s.drop_last() =~= Seq::<char>::empty());
        assert(s.drop_first() =~= Seq::<char>::empty());
        assert(s.last() == s[0]);
        assert(crate::encoder::spec_escape(s) =~= crate::encoder::spec_esc_char(s[0])
            + crate::encoder::spec_escape(s.drop_first()));
    } else {
        lemma_escape_front(s.drop_last());
        assert(s.drop_last()[0] == s[0]);
        assert(s.drop_last().drop_first() =~= s.drop_first().drop_last());
        assert(s.drop_first().last() == s.last());
        assert(crate::encoder::spec_escape(s) == crate::encoder::spec_escape(s.drop_last())
            + crate::encoder::spec_esc_char(s.last()));
        assert(crate::encoder::spec_escape(s.drop_first()) == crate::encoder::spec_escape(
            s.drop_first().drop_last(),
        ) + crate::encoder::spec_esc_char(s.last()));
        assert(crate::encoder::spec_escape(s) =~= crate::encoder::spec_esc_char(s[0])
            + crate::encoder::spec_escape(s.drop_first()));
    }
}

/// A scan that stands before the escaped text of `s` and its closing
/// quote reads back exactly `s`.
proof fn lemma_quoted_reads_escaped(text: Seq<char>, i: nat, s: Seq<char>)
    requires
        text.subrange(i as int, (i + crate::encoder::spec_escape(s).len()) as int)
            == crate::encoder::spec_escape(s),
        i + crate::encoder::spec_escape(s).len() < text.len(),
        text[(i + crate::encoder::spec_escape(s).len()) as int] == '"',
    ensures
        crate::lexer::spec_quoted_body(text, i) == (s, (i + crate::encoder::spec_escape(
            s,
        ).len()) as nat),
    decreases s.len(),
{
    let esc = crate::encoder::spec_escape(s);
    if s.len() == 0 {
        assert(text[i as int] == '"');
    } else {
        lemma_escape_front(s);
        let e0 = crate::encoder::spec_esc_char(s[0]);
        let rest = crate::encoder::spec_escape(s.drop_first());
        assert(esc == e0 + rest);
        assert forall|j: int| 0 <= j < esc.len() implies text[i + j] == esc[j] by {
            assert(text.subrange(i as int, (i + esc.len()) as int)[j] == text[i + j]);
        }
        let c0 = s[0];
        if c0 == '\\' || c0 == '"' || c0 == '\n' || c0 == '\r' || c0 == '\t' {
            assert(e0.len() == 2);
            let code = e0[1];
            assert(text[i as int] == '\\') by {
                assert(text.subrange(i as int, (i + esc.len()) as int)[0] == esc[0]);
                assert(esc[0] == e0[0]);
            }
            assert(text[i as int + 1] == code) by {
                assert(text.subrange(i as int, (i + esc.len()) as int)[1] == esc[1]);
                assert(esc[1] == e0[1]);
            }
            assert(crate::lexer::spec_unescape_char(code) == c0);
            assert(text.subrange(i as int + 2, (i + 2 + rest.len()) as int) =~= rest) by {
                assert forall|j: int| 0 <= j < rest.len() implies text.subrange(
                    i as int + 2,
                    (i + 2 + rest.len()) as int,
                )[j] == rest[j] by {
                    assert(text.subrange(i as int + 2, (i + 2 + rest.len()) as int)[j] == text[i
                        + 2 + j]);
                    assert(esc[j + 2] == rest[j]);
                }
            }
            lemma_quoted_reads_escaped(text, i + 2, s.drop_first());
            assert(crate::lexer::spec_quoted_body(text, i).0 =~= seq![c0]
                + crate::lexer::spec_quoted_body(text, i + 2).0);
            assert(seq![c0] + s.drop_first() =~= s);
        } else {
            assert(e0.len() == 1);
            assert(text[i as int] == c0) by {
                assert(text.subrange(i as int, (i + esc.len()) as int)[0] == esc[0]);
                assert(esc[0] == e0[0]);
            }
            assert(c0 != '"' && c0 != '\\');
            assert(text.subrange(i as int + 1, (i + 1 + rest.len()) as int) =~= rest) by {
                assert forall|j: int| 0 <= j < rest.len() implies text.subrange(
                    i as int + 1,
                    (i + 1 + rest.len()) as int,
                )[j] == rest[j] by {
                    assert(text.subrange(i as int + 1, (i + 1 + rest.len()) as int)[j] == text[i
                        + 1 + j]);
                    assert(esc[j + 1] == rest[j]);
                }
            }
            lemma_quoted_reads_escaped(text, i + 1, s.drop_first());
            assert(crate::lexer::spec_quoted_body(text, i).0 =~= seq![c0]
                + crate::lexer::spec_quoted_body(text, i + 1).0);
            assert(seq![c0] + s.drop_first() =~= s);
        }
    }
}

/// Unescaping undoes escaping: scanning a quoted string whose body
/// is the escaped text of `s` yields `s` back, stopped at the
/// closing quote.
pub proof fn lemma_escape_round_trip(s: Seq<char>)
    ensures
        crate::lexer::spec_quoted_body(seq!['"'] + crate::encoder::spec_escape(s) + seq!['"'], 1)
            == (s, (1 + crate::encoder::spec_escape(s).len()) as nat),
{
    let esc = crate::encoder::spec_escape(s);
    let text = seq!['"'] + esc + seq!['"'];
    assert(text.subrange(1, 1 + esc.len() as int) =~= esc);
    assert(text[1 + esc.len() as int] == '"');
    lemma_quoted_reads_escaped(text, 1, s);
}

/// A word of lowercase letters ends at the first delimiter: here,
/// the end of the text.
proof fn lemma_unq_end_word(s: Seq<char>, i: nat)
    requires
        i <= s.len(),
        forall|j: int| 0 <= j < s.len() ==> 'a' <= #[trigger] s[j] <= 'z',
    ensures
        spec_unq_end(s, i) == s.len(),
    decreases s.len() - i,
{
    if i < s.len() {
        lemma_unq_end_word(s, i + 1);
    }
}

/// The token stream of a single keyword word (`null`, `true`,
/// `false`) or literal letter: the keyword token, then `Eof`.
proof fn lemma_tokenize_word(s: Seq<char>)
    requires
        s.len() > 0,
        forall|j: int| 0 <= j < s.len() ==> 'a' <= #[trigger] s[j] <= 'z',
    ensures
        spec_tokenize(s).len() == 2,
        spec_tokenize(s)[1].token_type == TokenType::Eof,
        spec_tokenize(s)[0].token_type == (if s == seq!['n', 'u', 'l', 'l'] {
            TokenType::Null
        } else if s == seq!['t', 'r', 'u', 'e'] || s == seq!['f', 'a', 'l', 's', 'e'] {
            TokenType::Boolean
        } else {
            TokenType::String
        }),
        spec_tokenize(s)[0].value == (if s == seq!['n', 'u', 'l', 'l'] || s == seq!['t', 'r', 'u', 'e']
            || s == seq!['f', 'a', 'l', 's', 'e'] {
            s
        } else {
            crate::lexer::spec_underscore_to_space(s)
        }),
{
    lemma_unq_end_word(s, 0);
    let st = spec_scan_token(s, 0, 1, 1);
    assert(s.subrange(0, s.len() as int) =~= s);
    assert(st.pos == s.len());
    assert(spec_lex_from(s, st.pos, st.line, st.column).len() == 1);
    assert(spec_tokenize(s) == seq![st.token->0] + spec_lex_from(s, st.pos, st.line, st.column));
}

/// Decoding the encoding of `null` or of a boolean restores the
/// value, whatever the encode options, under any decode options that
/// admit one level of nesting.
pub proof fn lemma_literal_round_trip(v: ValueModel, eo: NeonEncodeOptions, dopts: NeonDecodeOptions)
    requires
        dopts.max_depth >= 1,
        v is Null || v is Bool,
    ensures
        sp_parse(spec_tokenize(spec_enc_value(v, eo, 0)), dopts) == Ok::<
            ValueModel,
            crate::error::ErrorModel,
        >(v),
{
    let s = spec_enc_value(v, eo, 0);
    let toks = spec_tokenize(s);
    if s == seq!['N'] || s == seq!['T'] || s == seq!['F'] {
        let st = spec_scan_token(s, 0, 1, 1);
        assert(toks == seq![st.token->0] + spec_lex_from(s, st.pos, st.line, st.column));
        assert(spec_lex_from(s, 1, 1, 2).len() == 1);
        assert(toks.len() == 2);
        assert(toks[0].token_type == (if s == seq!['N'] {
            TokenType::Null
        } else {
            TokenType::Boolean
        }));
        assert(toks[1].token_type == TokenType::Eof);
    } else {
        match v {
            ValueModel::Null => {
                assert(s == seq!['n', 'u', 'l', 'l']);
                assert forall|j: int| 0 <= j < s.len() implies 'a' <= #[trigger] s[j] <= 'z' by {}
                lemma_tokenize_word(s);
            },
            ValueModel::Bool(b) => {
                if b {
                    assert(s == seq!['t', 'r', 'u', 'e']);
                } else {
                    assert(s == seq!['f', 'a', 'l', 's', 'e']);
                }
                assert forall|j: int| 0 <= j < s.len() implies 'a' <= #[trigger] s[j] <= 'z' by {}
                lemma_tokenize_word(s);
            },
            _ => {},
        }
    }
    assert(toks[0].token_type != TokenType::Newline);
    assert(sp_skip_nl(toks, 0) == 0);
    match v {
        ValueModel::Null => {
            assert(toks[0].token_type == TokenType::Null);
            assert(sp_value(toks, 0, 0, dopts) == Ok::<(ValueModel, nat), crate::error::ErrorModel>(
                (ValueModel::Null, 1),
            ));
        },
        ValueModel::Bool(b) => {
            assert(toks[0].token_type == TokenType::Boolean);
            if b {
                assert(toks[0].value == seq!['t', 'r', 'u', 'e']);
            } else {
                assert(toks[0].value == seq!['f', 'a', 'l', 's', 'e']);
                assert(toks[0].value != seq!['t', 'r', 'u', 'e']);
            }
            assert(sp_value(toks, 0, 0, dopts) == Ok::<(ValueModel, nat), crate::error::ErrorModel>(
                (ValueModel::Bool(b), 1),
            ));
        },
        _ => {},
    }
}

} // verus!
