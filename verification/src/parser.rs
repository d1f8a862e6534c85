//! The parser: a token stream to a value tree.
//!
//! Recursive descent over the token buffer, honouring length-prefixed
//! arrays, optional schemas and the depth bound.  Its behaviour is
//! specified by [`sp_parse`] and the `sp_*` family below, which the
//! executable methods are proved to follow step by step.

use vstd::prelude::*;
use vstd::string::StringExecFns;
use crate::error::{ErrorModel, NeonError};
use crate::number::Number;
use crate::types::{
    NeonDecodeOptions, Token, TokenModel, TokenType, get_expansions, lookup_table, spec_expand_key,
    spec_expansions,
};
use crate::value::{Value, ValueModel, deep_entries, deep_seq, spec_obj_insert};
use crate::lexer::views;

verus! {

/// The first position at or after `i` that is not a newline token.
pub open spec fn sp_skip_nl(toks: Seq<TokenModel>, i: nat) -> nat
    decreases toks.len() - i,
{
    if i < toks.len() && toks[i as int].token_type == TokenType::Newline {
        sp_skip_nl(toks, i + 1)
    } else {
        i
    }
}

pub proof fn lemma_skip_nl(toks: Seq<TokenModel>, i: nat)
    requires
        i <= toks.len(),
    ensures
        i <= sp_skip_nl(toks, i) <= toks.len(),
        sp_skip_nl(toks, i) < toks.len() ==> toks[sp_skip_nl(toks, i) as int].token_type
            != TokenType::Newline,
    decreases toks.len() - i,
{
    if i < toks.len() && toks[i as int].token_type == TokenType::Newline {
        lemma_skip_nl(toks, i + 1);
    }
}

/// Whether the cursor is at the end: past the buffer or at `Eof`.
pub open spec fn sp_at_end(toks: Seq<TokenModel>, i: nat) -> bool {
    i >= toks.len() || toks[i as int].token_type == TokenType::Eof
}

/// The key after abbreviation expansion, when the options ask for it.
pub open spec fn sp_expand(v: Seq<char>, opts: NeonDecodeOptions) -> Seq<char> {
    if opts.expand_abbreviations {
        spec_expand_key(v)
    } else {
        v
    }
}

/// The array length a number token declares: its integer value when
/// it is a non-negative integer in `usize` range, else zero.
pub open spec fn sp_len_of(n: Number) -> nat {
    if n.scale == 0 && !n.neg && n.mant <= usize::MAX as u128 {
        n.mant as nat
    } else {
        0
    }
}

/// The message of a failed expectation.
pub open spec fn sp_expect_msg(kind: TokenType) -> Seq<char> {
    match kind {
        TokenType::ArrayStart => "Expected ArrayStart"@,
        TokenType::SchemaStart => "Expected SchemaStart"@,
        TokenType::ObjectStart => "Expected ObjectStart"@,
        TokenType::Colon => "Expected Colon"@,
        TokenType::Comma => "Expected Comma"@,
        TokenType::Newline => "Expected Newline"@,
        TokenType::Indent => "Expected Indent"@,
        TokenType::ListItem => "Expected ListItem"@,
        TokenType::Null => "Expected Null"@,
        TokenType::Boolean => "Expected Boolean"@,
        TokenType::Number => "Expected Number"@,
        TokenType::String => "Expected String"@,
        TokenType::Eof => "Expected Eof"@,
    }
}

/// The syntax error of a failed expectation, at the position of the
/// offending token.
pub open spec fn sp_expect_err(toks: Seq<TokenModel>, i: nat, kind: TokenType) -> ErrorModel {
    ErrorModel::Syntax(
        sp_expect_msg(kind),
        if i < toks.len() {
            toks[i as int].line
        } else {
            0
        },
        if i < toks.len() {
            toks[i as int].column
        } else {
            0
        },
    )
}

/// Parses the schema fields after `^`: strings separated by commas,
/// expanded through the abbreviation table.
pub open spec fn sp_schema(
    toks: Seq<TokenModel>,
    i: nat,
    opts: NeonDecodeOptions,
    acc: Seq<Seq<char>>,
) -> (Seq<Seq<char>>, nat)
    decreases toks.len() - i,
{
    if i >= toks.len() || toks[i as int].token_type != TokenType::String {
        (acc, i)
    } else {
        let acc2 = acc.push(sp_expand(toks[i as int].value, opts));
        let i1 = i + 1;
        if i1 < toks.len() && toks[i1 as int].token_type == TokenType::Comma {
            sp_schema(toks, i1 + 1, opts, acc2)
        } else {
            (acc2, i1)
        }
    }
}

pub proof fn lemma_schema_bounds(
    toks: Seq<TokenModel>,
    i: nat,
    opts: NeonDecodeOptions,
    acc: Seq<Seq<char>>,
)
    requires
        i <= toks.len(),
    ensures
        i <= sp_schema(toks, i, opts, acc).1 <= toks.len(),
    decreases toks.len() - i,
{
    if i >= toks.len() || toks[i as int].token_type != TokenType::String {
    } else {
        let i1 = i + 1;
        if i1 < toks.len() && toks[i1 as int].token_type == TokenType::Comma {
            lemma_schema_bounds(toks, i1 + 1, opts, acc.push(sp_expand(toks[i as int].value, opts)));
        }
    }
}

/// Parses one value at `i` with `depth` containers already open.
pub open spec fn sp_value(toks: Seq<TokenModel>, i: nat, depth: nat, opts: NeonDecodeOptions) -> Result<
    (ValueModel, nat),
    ErrorModel,
>
    decreases toks.len() - i, 0nat, 2nat,
{
    let d = depth + 1;
    if d > opts.max_depth {
        Err(ErrorModel::MaxDepth(opts.max_depth as nat))
    } else if i >= toks.len() {
        Ok((ValueModel::Null, i))
    } else {
        let t = toks[i as int];
        if t.token_type == TokenType::Eof {
            Ok((ValueModel::Null, i))
        } else if t.token_type == TokenType::String && i + 1 < toks.len() && toks[i as int
            + 1].token_type == TokenType::ArrayStart {
            match sp_array(toks, i + 1, d, opts) {
                Ok((arr, j)) => Ok((ValueModel::Obj(seq![(t.value, arr)]), j)),
                Err(e) => Err(e),
            }
        } else if t.token_type == TokenType::Null {
            Ok((ValueModel::Null, i + 1))
        } else if t.token_type == TokenType::Boolean {
            Ok((ValueModel::Bool(t.value == seq!['t', 'r', 'u', 'e']), i + 1))
        } else if t.token_type == TokenType::Number {
            Ok((ValueModel::Num(t.num), i + 1))
        } else if t.token_type == TokenType::String {
            Ok((ValueModel::Str(sp_expand(t.value, opts)), i + 1))
        } else if t.token_type == TokenType::ObjectStart {
            sp_object(toks, i, d, opts)
        } else if t.token_type == TokenType::ArrayStart {
            sp_array(toks, i, d, opts)
        } else {
            Ok((ValueModel::Str(t.value), i + 1))
        }
    }
}

/// Parses an object after `@`: `key : value` entries until a newline,
/// the end, or a non-string token.
pub open spec fn sp_object(toks: Seq<TokenModel>, i: nat, d: nat, opts: NeonDecodeOptions) -> Result<
    (ValueModel, nat),
    ErrorModel,
>
    decreases toks.len() - i, 0nat, 1nat,
{
    if !(i < toks.len() && toks[i as int].token_type == TokenType::ObjectStart) {
        Err(sp_expect_err(toks, i, TokenType::ObjectStart))
    } else {
        match sp_entries(toks, i + 1, d, opts, Seq::empty()) {
            Ok((es, j)) => Ok((ValueModel::Obj(es), j)),
            Err(e) => Err(e),
        }
    }
}

/// The entry loop of an object body.
pub open spec fn sp_entries(
    toks: Seq<TokenModel>,
    i: nat,
    d: nat,
    opts: NeonDecodeOptions,
    acc: Seq<(Seq<char>, ValueModel)>,
) -> Result<(Seq<(Seq<char>, ValueModel)>, nat), ErrorModel>
    decreases toks.len() - i, 0nat, 3nat,
        via sp_entries_dec
{
    if i >= toks.len() || toks[i as int].token_type == TokenType::Eof || toks[i as int].token_type
        == TokenType::Newline {
        Ok((acc, i))
    } else if toks[i as int].token_type != TokenType::String {
        Ok((acc, i))
    } else {
        let key = sp_expand(toks[i as int].value, opts);
        let i1 = i + 1;
        if i1 < toks.len() && toks[i1 as int].token_type == TokenType::Colon {
            let i2 = i1 + 1;
            if i2 < toks.len() && toks[i2 as int].token_type == TokenType::ArrayStart {
                match sp_array(toks, i2, d, opts) {
                    Ok((v, j)) => {
                        let acc2 = spec_obj_insert(acc, key, v);
                        if i < j && j <= toks.len() {
                            sp_entries(toks, j, d, opts, acc2)
                        } else {
                            Ok((acc2, j))
                        }
                    },
                    Err(e) => Err(e),
                }
            } else if i2 < toks.len() && toks[i2 as int].token_type == TokenType::Newline {
                let j = sp_skip_nl(toks, i2);
                if j < toks.len() && toks[j as int].token_type == TokenType::Indent {
                    match sp_value(toks, j + 1, d, opts) {
                        Ok((v, k)) => {
                            let acc2 = spec_obj_insert(acc, key, v);
                            if i < k && k <= toks.len() {
                                sp_entries(toks, k, d, opts, acc2)
                            } else {
                                Ok((acc2, k))
                            }
                        },
                        Err(e) => Err(e),
                    }
                } else {
                    let acc2 = spec_obj_insert(acc, key, ValueModel::Null);
                    if i < j && j <= toks.len() {
                        sp_entries(toks, j, d, opts, acc2)
                    } else {
                        Ok((acc2, j))
                    }
                }
            } else {
                match sp_value(toks, i2, d, opts) {
                    Ok((v, j)) => {
                        let acc2 = spec_obj_insert(acc, key, v);
                        if i < j && j <= toks.len() {
                            sp_entries(toks, j, d, opts, acc2)
                        } else {
                            Ok((acc2, j))
                        }
                    },
                    Err(e) => Err(e),
                }
            }
        } else if i1 < toks.len() && toks[i1 as int].token_type == TokenType::ArrayStart {
            match sp_array(toks, i1, d, opts) {
                Ok((v, j)) => {
                    let acc2 = spec_obj_insert(acc, key, v);
                    if i < j && j <= toks.len() {
                        sp_entries(toks, j, d, opts, acc2)
                    } else {
                        Ok((acc2, j))
                    }
                },
                Err(e) => Err(e),
            }
        } else {
            Ok((acc, i1))
        }
    }
}

#[via_fn]
proof fn sp_entries_dec(
    toks: Seq<TokenModel>,
    i: nat,
    d: nat,
    opts: NeonDecodeOptions,
    acc: Seq<(Seq<char>, ValueModel)>,
) {
    if i < toks.len() && toks[i as int].token_type == TokenType::String {
        let i1 = i + 1;
        if i1 < toks.len() && toks[i1 as int].token_type == TokenType::Colon {
            let i2 = i1 + 1;
            lemma_skip_nl(toks, i2);
        }
    }
}

/// Parses an array after `#`: the length, an optional schema, then
/// inline values or rows.
pub open spec fn sp_array(toks: Seq<TokenModel>, i: nat, d: nat, opts: NeonDecodeOptions) -> Result<
    (ValueModel, nat),
    ErrorModel,
>
    decreases toks.len() - i, 0nat, 1nat,
        via sp_array_dec
{
    if !(i < toks.len() && toks[i as int].token_type == TokenType::ArrayStart) {
        Err(sp_expect_err(toks, i, TokenType::ArrayStart))
    } else {
        let i1 = i + 1;
        if i1 >= toks.len() || toks[i1 as int].token_type != TokenType::Number {
            Err(ErrorModel::Syntax("Expected array length"@, 0, 0))
        } else {
            let length = sp_len_of(toks[i1 as int].num);
            let i2 = i1 + 1;
            if length == 0 {
                Ok((ValueModel::Arr(Seq::empty()), i2))
            } else {
                let has_schema = i2 < toks.len() && toks[i2 as int].token_type
                    == TokenType::SchemaStart;
                let fi = if has_schema {
                    sp_schema(toks, i2 + 1, opts, Seq::empty())
                } else {
                    (Seq::<Seq<char>>::empty(), i2)
                };
                let i3 = fi.1;
                let inline = !(i3 < toks.len() && toks[i3 as int].token_type == TokenType::Newline)
                    && !(i3 < toks.len() && toks[i3 as int].token_type == TokenType::Eof);
                if inline {
                    match sp_inline(toks, i3, d, opts, length, Seq::empty()) {
                        Ok((vs, j)) => Ok((ValueModel::Arr(vs), j)),
                        Err(e) => Err(e),
                    }
                } else if has_schema {
                    match sp_tab_rows(toks, i3, d, opts, fi.0, length, Seq::empty()) {
                        Ok((vs, j)) => Ok((ValueModel::Arr(vs), j)),
                        Err(e) => Err(e),
                    }
                } else {
                    match sp_list_rows(toks, i3, d, opts, length, Seq::empty()) {
                        Ok((vs, j)) => Ok((ValueModel::Arr(vs), j)),
                        Err(e) => Err(e),
                    }
                }
            }
        }
    }
}

#[via_fn]
proof fn sp_array_dec(toks: Seq<TokenModel>, i: nat, d: nat, opts: NeonDecodeOptions) {
    if i < toks.len() && toks[i as int].token_type == TokenType::ArrayStart {
        let i1 = i + 1;
        if !(i1 >= toks.len() || toks[i1 as int].token_type != TokenType::Number) {
            let i2 = i1 + 1;
            if i2 < toks.len() && toks[i2 as int].token_type == TokenType::SchemaStart {
                lemma_schema_bounds(toks, i2 + 1, opts, Seq::empty());
            }
        }
    }
}

/// The inline-value loop of an array: values on the same line, up to
/// the declared length.
pub open spec fn sp_inline(
    toks: Seq<TokenModel>,
    i: nat,
    d: nat,
    opts: NeonDecodeOptions,
    remaining: nat,
    acc: Seq<ValueModel>,
) -> Result<(Seq<ValueModel>, nat), ErrorModel>
    decreases toks.len() - i, remaining, 3nat,
{
    if remaining == 0 || i >= toks.len() || toks[i as int].token_type == TokenType::Eof
        || toks[i as int].token_type == TokenType::Newline {
        Ok((acc, i))
    } else {
        match sp_value(toks, i, d, opts) {
            Ok((v, j)) => {
                let acc2 = acc.push(v);
                if i < j && j <= toks.len() {
                    sp_inline(toks, j, d, opts, (remaining - 1) as nat, acc2)
                } else {
                    Ok((acc2, j))
                }
            },
            Err(e) => Err(e),
        }
    }
}

/// The row loop of a schema array: one object per row, a value per
/// schema field.
pub open spec fn sp_tab_rows(
    toks: Seq<TokenModel>,
    i: nat,
    d: nat,
    opts: NeonDecodeOptions,
    fields: Seq<Seq<char>>,
    rows_left: nat,
    acc: Seq<ValueModel>,
) -> Result<(Seq<ValueModel>, nat), ErrorModel>
    decreases toks.len() - i, rows_left, 4nat,
        via sp_tab_rows_dec
{
    if rows_left == 0 {
        Ok((acc, i))
    } else {
        let j0 = sp_skip_nl(toks, i);
        let j1 = if j0 < toks.len() && toks[j0 as int].token_type == TokenType::Indent {
            j0 + 1
        } else {
            j0
        };
        if !(i <= j1 && j1 <= toks.len()) {
            Ok((acc, i))
        } else {
            match sp_tab_fields(toks, j1, d, opts, fields, 0, rows_left, Seq::empty()) {
                Ok((obj, j2)) => {
                    let acc2 = acc.push(ValueModel::Obj(obj));
                    if i <= j2 && j2 <= toks.len() {
                        sp_tab_rows(toks, j2, d, opts, fields, (rows_left - 1) as nat, acc2)
                    } else {
                        Ok((acc2, j2))
                    }
                },
                Err(e) => Err(e),
            }
        }
    }
}

#[via_fn]
proof fn sp_tab_rows_dec(
    toks: Seq<TokenModel>,
    i: nat,
    d: nat,
    opts: NeonDecodeOptions,
    fields: Seq<Seq<char>>,
    rows_left: nat,
    acc: Seq<ValueModel>,
) {
}

/// The field loop of one schema row.
pub open spec fn sp_tab_fields(
    toks: Seq<TokenModel>,
    i: nat,
    d: nat,
    opts: NeonDecodeOptions,
    fields: Seq<Seq<char>>,
    fi: nat,
    rows_left: nat,
    obj: Seq<(Seq<char>, ValueModel)>,
) -> Result<(Seq<(Seq<char>, ValueModel)>, nat), ErrorModel>
    decreases toks.len() - i, rows_left, 3nat,
{
    if fi >= fields.len() || i >= toks.len() || toks[i as int].token_type == TokenType::Eof
        || toks[i as int].token_type == TokenType::Newline {
        Ok((obj, i))
    } else {
        match sp_value(toks, i, d, opts) {
            Ok((v, j)) => {
                let obj2 = spec_obj_insert(obj, fields[fi as int], v);
                if i < j && j <= toks.len() {
                    sp_tab_fields(toks, j, d, opts, fields, fi + 1, rows_left, obj2)
                } else {
                    Ok((obj2, j))
                }
            },
            Err(e) => Err(e),
        }
    }
}

/// The row loop of a plain multiline array: an optional `-` marker,
/// then one value per row.
pub open spec fn sp_list_rows(
    toks: Seq<TokenModel>,
    i: nat,
    d: nat,
    opts: NeonDecodeOptions,
    rows_left: nat,
    acc: Seq<ValueModel>,
) -> Result<(Seq<ValueModel>, nat), ErrorModel>
    decreases toks.len() - i, rows_left, 4nat,
        via sp_list_rows_dec
{
    if rows_left == 0 {
        Ok((acc, i))
    } else {
        let j0 = sp_skip_nl(toks, i);
        let j1 = if j0 < toks.len() && toks[j0 as int].token_type == TokenType::Indent {
            j0 + 1
        } else {
            j0
        };
        let j2 = if j1 < toks.len() && toks[j1 as int].token_type == TokenType::ListItem {
            j1 + 1
        } else {
            j1
        };
        if !(i <= j2 && j2 <= toks.len()) {
            Ok((acc, i))
        } else {
            match sp_value(toks, j2, d, opts) {
                Ok((v, k)) => {
                    let acc2 = acc.push(v);
                    if i <= k && k <= toks.len() {
                        sp_list_rows(toks, k, d, opts, (rows_left - 1) as nat, acc2)
                    } else {
                        Ok((acc2, k))
                    }
                },
                Err(e) => Err(e),
            }
        }
    }
}

#[via_fn]
proof fn sp_list_rows_dec(
    toks: Seq<TokenModel>,
    i: nat,
    d: nat,
    opts: NeonDecodeOptions,
    rows_left: nat,
    acc: Seq<ValueModel>,
) {
}

/// A successful parse of a value never moves the cursor left, never
/// leaves the buffer, and consumes at least one token unless it stands
/// at the end.
pub proof fn lemma_value_bounds(toks: Seq<TokenModel>, i: nat, depth: nat, opts: NeonDecodeOptions)
    requires
        i <= toks.len(),
    ensures
        sp_value(toks, i, depth, opts) matches Ok((v, j)) ==> i <= j <= toks.len() && (i
            < toks.len() && toks[i as int].token_type != TokenType::Eof ==> i < j),
    decreases toks.len() - i, 0nat, 2nat,
{
    let d = depth + 1;
    if d > opts.max_depth || i >= toks.len() {
    } else {
        let t = toks[i as int];
        if t.token_type == TokenType::Eof {
        } else if t.token_type == TokenType::String && i + 1 < toks.len() && toks[i as int
            + 1].token_type == TokenType::ArrayStart {
            lemma_array_bounds(toks, i + 1, d, opts);
        } else if t.token_type == TokenType::Null || t.token_type == TokenType::Boolean
            || t.token_type == TokenType::Number || t.token_type == TokenType::String {
        } else if t.token_type == TokenType::ObjectStart {
            lemma_object_bounds(toks, i, d, opts);
        } else if t.token_type == TokenType::ArrayStart {
            lemma_array_bounds(toks, i, d, opts);
        }
    }
}

pub proof fn lemma_object_bounds(toks: Seq<TokenModel>, i: nat, d: nat, opts: NeonDecodeOptions)
    requires
        i <= toks.len(),
    ensures
        sp_object(toks, i, d, opts) matches Ok((v, j)) ==> i < j <= toks.len(),
    decreases toks.len() - i, 0nat, 1nat,
{
    if i < toks.len() && toks[i as int].token_type == TokenType::ObjectStart {
        lemma_entries_bounds(toks, i + 1, d, opts, Seq::empty());
    }
}

pub proof fn lemma_entries_bounds(
    toks: Seq<TokenModel>,
    i: nat,
    d: nat,
    opts: NeonDecodeOptions,
    acc: Seq<(Seq<char>, ValueModel)>,
)
    requires
        i <= toks.len(),
    ensures
        sp_entries(toks, i, d, opts, acc) matches Ok((es, j)) ==> i <= j <= toks.len(),
    decreases toks.len() - i, 0nat, 3nat,
{
    if i >= toks.len() || toks[i as int].token_type == TokenType::Eof || toks[i as int].token_type
        == TokenType::Newline {
    } else if toks[i as int].token_type != TokenType::String {
    } else {
        let key = sp_expand(toks[i as int].value, opts);
        let i1 = i + 1;
        if i1 < toks.len() && toks[i1 as int].token_type == TokenType::Colon {
            let i2 = i1 + 1;
            if i2 < toks.len() && toks[i2 as int].token_type == TokenType::ArrayStart {
                lemma_array_bounds(toks, i2, d, opts);
                match sp_array(toks, i2, d, opts) {
                    Ok((v, j)) => {
                        lemma_entries_bounds(toks, j, d, opts, spec_obj_insert(acc, key, v));
                    },
                    Err(_) => {},
                }
            } else if i2 < toks.len() && toks[i2 as int].token_type == TokenType::Newline {
                lemma_skip_nl(toks, i2);
                let j = sp_skip_nl(toks, i2);
                if j < toks.len() && toks[j as int].token_type == TokenType::Indent {
                    lemma_value_bounds(toks, j + 1, d, opts);
                    match sp_value(toks, j + 1, d, opts) {
                        Ok((v, k)) => {
                            if i < k && k <= toks.len() {
                                lemma_entries_bounds(toks, k, d, opts, spec_obj_insert(acc, key, v));
                            }
                        },
                        Err(_) => {},
                    }
                } else {
                    lemma_entries_bounds(toks, j, d, opts, spec_obj_insert(acc, key, ValueModel::Null));
                }
            } else {
                lemma_value_bounds(toks, i2, d, opts);
                match sp_value(toks, i2, d, opts) {
                    Ok((v, j)) => {
                        if i < j && j <= toks.len() {
                            lemma_entries_bounds(toks, j, d, opts, spec_obj_insert(acc, key, v));
                        }
                    },
                    Err(_) => {},
                }
            }
        } else if i1 < toks.len() && toks[i1 as int].token_type == TokenType::ArrayStart {
            lemma_array_bounds(toks, i1, d, opts);
            match sp_array(toks, i1, d, opts) {
                Ok((v, j)) => {
                    lemma_entries_bounds(toks, j, d, opts, spec_obj_insert(acc, key, v));
                },
                Err(_) => {},
            }
        }
    }
}

pub proof fn lemma_array_bounds(toks: Seq<TokenModel>, i: nat, d: nat, opts: NeonDecodeOptions)
    requires
        i <= toks.len(),
    ensures
        sp_array(toks, i, d, opts) matches Ok((v, j)) ==> i < j <= toks.len(),
    decreases toks.len() - i, 0nat, 1nat,
{
    if i < toks.len() && toks[i as int].token_type == TokenType::ArrayStart {
        let i1 = i + 1;
        if !(i1 >= toks.len() || toks[i1 as int].token_type != TokenType::Number) {
            let length = sp_len_of(toks[i1 as int].num);
            let i2 = i1 + 1;
            if length != 0 {
                let has_schema = i2 < toks.len() && toks[i2 as int].token_type
                    == TokenType::SchemaStart;
                if has_schema {
                    lemma_schema_bounds(toks, i2 + 1, opts, Seq::empty());
                }
                let fi = if has_schema {
                    sp_schema(toks, i2 + 1, opts, Seq::empty())
                } else {
                    (Seq::<Seq<char>>::empty(), i2)
                };
                let i3 = fi.1;
                lemma_inline_bounds(toks, i3, d, opts, length, Seq::empty());
                lemma_tab_rows_bounds(toks, i3, d, opts, fi.0, length, Seq::empty());
                lemma_list_rows_bounds(toks, i3, d, opts, length, Seq::empty());
            }
        }
    }
}

pub proof fn lemma_inline_bounds(
    toks: Seq<TokenModel>,
    i: nat,
    d: nat,
    opts: NeonDecodeOptions,
    remaining: nat,
    acc: Seq<ValueModel>,
)
    requires
        i <= toks.len(),
    ensures
        sp_inline(toks, i, d, opts, remaining, acc) matches Ok((vs, j)) ==> i <= j <= toks.len(),
    decreases toks.len() - i, remaining, 3nat,
{
    if remaining == 0 || i >= toks.len() || toks[i as int].token_type == TokenType::Eof
        || toks[i as int].token_type == TokenType::Newline {
    } else {
        lemma_value_bounds(toks, i, d, opts);
        match sp_value(toks, i, d, opts) {
            Ok((v, j)) => {
                if i < j && j <= toks.len() {
                    lemma_inline_bounds(toks, j, d, opts, (remaining - 1) as nat, acc.push(v));
                }
            },
            Err(_) => {},
        }
    }
}

pub proof fn lemma_tab_fields_bounds(
    toks: Seq<TokenModel>,
    i: nat,
    d: nat,
    opts: NeonDecodeOptions,
    fields: Seq<Seq<char>>,
    fi: nat,
    rows_left: nat,
    obj: Seq<(Seq<char>, ValueModel)>,
)
    requires
        i <= toks.len(),
    ensures
        sp_tab_fields(toks, i, d, opts, fields, fi, rows_left, obj) matches Ok((o, j)) ==> i <= j
            <= toks.len(),
    decreases toks.len() - i, rows_left, 3nat,
{
    if fi >= fields.len() || i >= toks.len() || toks[i as int].token_type == TokenType::Eof
        || toks[i as int].token_type == TokenType::Newline {
    } else {
        lemma_value_bounds(toks, i, d, opts);
        match sp_value(toks, i, d, opts) {
            Ok((v, j)) => {
                if i < j && j <= toks.len() {
                    lemma_tab_fields_bounds(
                        toks,
                        j,
                        d,
                        opts,
                        fields,
                        fi + 1,
                        rows_left,
                        spec_obj_insert(obj, fields[fi as int], v),
                    );
                }
            },
            Err(_) => {},
        }
    }
}

pub proof fn lemma_tab_rows_bounds(
    toks: Seq<TokenModel>,
    i: nat,
    d: nat,
    opts: NeonDecodeOptions,
    fields: Seq<Seq<char>>,
    rows_left: nat,
    acc: Seq<ValueModel>,
)
    requires
        i <= toks.len(),
    ensures
        sp_tab_rows(toks, i, d, opts, fields, rows_left, acc) matches Ok((vs, j)) ==> i <= j
            <= toks.len(),
    decreases toks.len() - i, rows_left, 4nat,
{
    if rows_left == 0 {
    } else {
        lemma_skip_nl(toks, i);
        let j0 = sp_skip_nl(toks, i);
        let j1: nat = if j0 < toks.len() && toks[j0 as int].token_type == TokenType::Indent {
            j0 + 1
        } else {
            j0
        };
        if i <= j1 && j1 <= toks.len() {
            lemma_tab_fields_bounds(toks, j1, d, opts, fields, 0, rows_left, Seq::empty());
            match sp_tab_fields(toks, j1, d, opts, fields, 0, rows_left, Seq::empty()) {
                Ok((obj, j2)) => {
                    if i <= j2 && j2 <= toks.len() {
                        lemma_tab_rows_bounds(
                            toks,
                            j2,
                            d,
                            opts,
                            fields,
                            (rows_left - 1) as nat,
                            acc.push(ValueModel::Obj(obj)),
                        );
                    }
                },
                Err(_) => {},
            }
        }
    }
}

pub proof fn lemma_list_rows_bounds(
    toks: Seq<TokenModel>,
    i: nat,
    d: nat,
    opts: NeonDecodeOptions,
    rows_left: nat,
    acc: Seq<ValueModel>,
)
    requires
        i <= toks.len(),
    ensures
        sp_list_rows(toks, i, d, opts, rows_left, acc) matches Ok((vs, j)) ==> i <= j <= toks.len(),
    decreases toks.len() - i, rows_left, 4nat,
{
    if rows_left == 0 {
    } else {
        lemma_skip_nl(toks, i);
        let j0 = sp_skip_nl(toks, i);
        let j1: nat = if j0 < toks.len() && toks[j0 as int].token_type == TokenType::Indent {
            j0 + 1
        } else {
            j0
        };
        let j2: nat = if j1 < toks.len() && toks[j1 as int].token_type == TokenType::ListItem {
            j1 + 1
        } else {
            j1
        };
        if i <= j2 && j2 <= toks.len() {
            lemma_value_bounds(toks, j2, d, opts);
            match sp_value(toks, j2, d, opts) {
                Ok((v, k)) => {
                    if i <= k && k <= toks.len() {
                        lemma_list_rows_bounds(toks, k, d, opts, (rows_left - 1) as nat, acc.push(v));
                    }
                },
                Err(_) => {},
            }
        }
    }
}

/// Parses a whole document: leading newlines, then nothing (`Null`)
/// or one value.
pub open spec fn sp_parse(toks: Seq<TokenModel>, opts: NeonDecodeOptions) -> Result<
    ValueModel,
    ErrorModel,
> {
    let i = sp_skip_nl(toks, 0);
    if sp_at_end(toks, i) {
        Ok(ValueModel::Null)
    } else {
        match sp_value(toks, i, 0, opts) {
            Ok((v, _)) => Ok(v),
            Err(e) => Err(e),
        }
    }
}

/// The models of a schema field vector.
pub open spec fn strs(ss: Seq<String>) -> Seq<Seq<char>> {
    ss.map_values(|s: String| s@)
}

/// The parser: options, a token buffer, a cursor and the recursion
/// depth.
pub struct Parser {
    pub options: NeonDecodeOptions,
    pub tokens: Vec<Token>,
    pub current: usize,
    pub depth: usize,
}

impl Parser {
    /// The cursor is inside the buffer and the depth bound leaves
    /// room for the counter.
    pub open spec fn wf(self) -> bool {
        &&& self.current <= self.tokens@.len()
        &&& self.tokens@.len() < usize::MAX
        &&& self.options.max_depth < usize::MAX
    }

    /// A parser with the given options and no tokens yet.
    pub fn new(options: NeonDecodeOptions) -> (r: Self)
        requires
            options.max_depth < usize::MAX,
        ensures
            r.options == options,
            r.tokens@.len() == 0,
            r.current == 0,
            r.depth == 0,
            r.wf(),
    {
        Parser { options, tokens: Vec::new(), current: 0, depth: 0 }
    }

    /// The token at the cursor, if any.
    pub fn peek(&self) -> (r: Option<&Token>)
        ensures
            match r {
                Some(t) => self.current < self.tokens@.len() && *t == self.tokens@[self.current as int],
                None => self.current >= self.tokens@.len(),
            },
    {
        if self.current < self.tokens.len() {
            Some(&self.tokens[self.current])
        } else {
            None
        }
    }

    /// The token after the cursor, if any.
    pub fn peek_next(&self) -> (r: Option<&Token>)
        ensures
            match r {
                Some(t) => self.current + 1 < self.tokens@.len() && *t == self.tokens@[self.current
                    as int + 1],
                None => self.current + 1 >= self.tokens@.len(),
            },
    {
        if self.current < self.tokens.len() && self.tokens.len() - self.current > 1 {
            Some(&self.tokens[self.current + 1])
        } else {
            None
        }
    }

    /// Whether the cursor stands at the end of the document.
    pub fn is_at_end(&self) -> (r: bool)
        ensures
            r == sp_at_end(views(self.tokens@), self.current as nat),
    {
        match self.peek() {
            Some(t) => t.token_type == TokenType::Eof,
            None => true,
        }
    }

    /// Whether the token at the cursor has the given kind.
    pub fn check(&self, token_type: TokenType) -> (r: bool)
        ensures
            r == (self.current < self.tokens@.len() && views(self.tokens@)[self.current
                as int].token_type == token_type),
    {
        match self.peek() {
            Some(t) => t.token_type == token_type,
            None => false,
        }
    }

    /// Moves the cursor right, except at the end.
    pub fn advance(&mut self)
        requires
            old(self).wf(),
        ensures
            final(self).tokens == old(self).tokens,
            final(self).options == old(self).options,
            final(self).depth == old(self).depth,
            final(self).wf(),
            final(self).current == if old(self).current < old(self).tokens@.len() && old(
                self,
            ).tokens@[old(self).current as int].token_type != TokenType::Eof {
                old(self).current + 1
            } else {
                old(self).current as int
            },
    {
        proof {
            assert(views(self.tokens@).len() == self.tokens@.len());
        }
        if !self.is_at_end() {
            self.current = self.current + 1;
        }
    }

    /// Moves the cursor past the expected token kind, or reports a
    /// syntax error at the offending token.
    pub fn expect(&mut self, token_type: TokenType) -> (r: Result<(), NeonError>)
        requires
            old(self).wf(),
        ensures
            final(self).tokens == old(self).tokens,
            final(self).options == old(self).options,
            final(self).depth == old(self).depth,
            final(self).wf(),
            ({
                let toks = views(old(self).tokens@);
                let i = old(self).current as nat;
                let cur = final(self).current;
                match r {
                    Ok(_) => i < toks.len() && toks[i as int].token_type == token_type && cur == (
                    if token_type == TokenType::Eof {
                        i as int
                    } else {
                        i as int + 1
                    }),
                    Err(e) => !(i < toks.len() && toks[i as int].token_type == token_type) && cur
                        == i && e@ == sp_expect_err(toks, i, token_type),
                }
            }),
    {
        if self.check(token_type) {
            self.advance();
            Ok(())
        } else {
            let msg: &str = match token_type {
                TokenType::ArrayStart => "Expected ArrayStart",
                TokenType::SchemaStart => "Expected SchemaStart",
                TokenType::ObjectStart => "Expected ObjectStart",
                TokenType::Colon => "Expected Colon",
                TokenType::Comma => "Expected Comma",
                TokenType::Newline => "Expected Newline",
                TokenType::Indent => "Expected Indent",
                TokenType::ListItem => "Expected ListItem",
                TokenType::Null => "Expected Null",
                TokenType::Boolean => "Expected Boolean",
                TokenType::Number => "Expected Number",
                TokenType::String => "Expected String",
                TokenType::Eof => "Expected Eof",
            };
            let (line, column) = match self.peek() {
                Some(t) => (t.line, t.column),
                None => (0, 0),
            };
            Err(NeonError::syntax(msg, line, column))
        }
    }

    /// Moves the cursor past any newline tokens.
    pub fn skip_newlines(&mut self)
        requires
            old(self).wf(),
        ensures
            final(self).tokens == old(self).tokens,
            final(self).options == old(self).options,
            final(self).depth == old(self).depth,
            final(self).wf(),
            final(self).current == sp_skip_nl(views(old(self).tokens@), old(self).current as nat),
    {
        let ghost toks = views(self.tokens@);
        while self.check(TokenType::Newline)
            invariant
                self.wf(),
                self.tokens == old(self).tokens,
                self.options == old(self).options,
                self.depth == old(self).depth,
                toks == views(self.tokens@),
                sp_skip_nl(toks, old(self).current as nat) == sp_skip_nl(toks, self.current as nat),
            decreases toks.len() - self.current,
        {
            self.advance();
        }
    }

    /// The key (or string value) after abbreviation expansion, when
    /// the options ask for it.
    pub fn expand_abbreviation(&self, value: &str) -> (r: String)
        ensures
            r@ == sp_expand(value@, self.options),
    {
        if self.options.expand_abbreviations {
            let key = value.to_owned();
            match lookup_table(&get_expansions(), &key, Ghost(spec_expansions())) {
                Some(s) => s,
                None => value.to_owned(),
            }
        } else {
            value.to_owned()
        }
    }

    /// Parses the schema fields after `^`.
    pub fn parse_schema(&mut self) -> (r: Result<Vec<String>, NeonError>)
        requires
            old(self).wf(),
        ensures
            final(self).tokens == old(self).tokens,
            final(self).options == old(self).options,
            final(self).depth == old(self).depth,
            final(self).wf(),
            ({
                let sr = sp_schema(
                    views(old(self).tokens@),
                    old(self).current as nat,
                    old(self).options,
                    Seq::empty(),
                );
                r matches Ok(fields) && strs(fields@) == sr.0 && final(self).current == sr.1
            }),
    {
        let ghost toks = views(self.tokens@);
        let mut fields: Vec<String> = Vec::new();
        proof {
            assert(strs(fields@) =~= Seq::<Seq<char>>::empty());
        }
        loop
            invariant
                self.wf(),
                self.tokens == old(self).tokens,
                self.options == old(self).options,
                self.depth == old(self).depth,
                toks == views(self.tokens@),
                sp_schema(toks, old(self).current as nat, self.options, Seq::empty())
                    == sp_schema(toks, self.current as nat, self.options, strs(fields@)),
            decreases toks.len() - self.current,
        {
            let cont = match self.peek() {
                Some(t) => t.token_type == TokenType::String,
                None => false,
            };
            if !cont {
                return Ok(fields);
            }
            let ghost pre = strs(fields@);
            let v = self.tokens[self.current].value.clone();
            let f = self.expand_abbreviation(v.as_str());
            fields.push(f);
            proof {
                assert(strs(fields@) =~= pre.push(
                    sp_expand(toks[self.current as int].value, self.options),
                ));
            }
            self.advance();
            if self.check(TokenType::Comma) {
                self.advance();
            } else {
                return Ok(fields);
            }
        }
    }

    /// Parses one value at the cursor.
    #[verifier::rlimit(100)]
    fn parse_value(&mut self) -> (res: Result<Value, NeonError>)
        requires
            old(self).wf(),
            old(self).depth <= old(self).options.max_depth,
        ensures
            final(self).tokens == old(self).tokens,
            final(self).options == old(self).options,
            final(self).wf(),
            ({
                let r = sp_value(
                    views(old(self).tokens@),
                    old(self).current as nat,
                    old(self).depth as nat,
                    old(self).options,
                );
                match res {
                    Ok(v) => r matches Ok((vm, j)) && v.deep() == vm && final(self).current == j
                        && final(self).depth == old(self).depth,
                    Err(e) => r matches Err(em) && e@ == em,
                }
            }),
        decreases self.tokens@.len() - self.current, 0nat, 2nat,
    {
        let ghost toks = views(old(self).tokens@);
        proof {
            assert(toks.len() == old(self).tokens@.len());
        }
        self.depth = self.depth + 1;
        if self.depth > self.options.max_depth {
            return Err(NeonError::MaxDepth { depth: self.options.max_depth });
        }
        if self.current >= self.tokens.len() {
            self.depth = self.depth - 1;
            return Ok(Value::Null);
        }
        proof {
            assert(toks[self.current as int] == self.tokens@[self.current as int]@);
        }
        let tt = self.tokens[self.current].token_type;
        if tt == TokenType::Eof {
            self.depth = self.depth - 1;
            return Ok(Value::Null);
        }
        if tt == TokenType::String && self.current + 1 < self.tokens.len() {
            proof {
                assert(toks[self.current as int + 1] == self.tokens@[self.current as int + 1]@);
            }
            if self.tokens[self.current + 1].token_type == TokenType::ArrayStart {
                match self.parse_named_array() {
                    Ok(v) => {
                        self.depth = self.depth - 1;
                        return Ok(v);
                    },
                    Err(e) => {
                        return Err(e);
                    },
                }
            }
        }
        if tt == TokenType::Null {
            self.advance();
            self.depth = self.depth - 1;
            Ok(Value::Null)
        } else if tt == TokenType::Boolean {
            let tstr = String::from_str("true");
            proof {
                reveal_strlit("true");
                assert(tstr@ =~= seq!['t', 'r', 'u', 'e']);
            }
            let b = self.tokens[self.current].value.eq(&tstr);
            self.advance();
            self.depth = self.depth - 1;
            Ok(Value::Bool(b))
        } else if tt == TokenType::Number {
            let n = self.tokens[self.current].num;
            self.advance();
            self.depth = self.depth - 1;
            Ok(Value::Num(n))
        } else if tt == TokenType::String {
            let v = self.tokens[self.current].value.clone();
            let e = self.expand_abbreviation(v.as_str());
            self.advance();
            self.depth = self.depth - 1;
            Ok(Value::Str(e))
        } else if tt == TokenType::ObjectStart {
            match self.parse_object() {
                Ok(v) => {
                    self.depth = self.depth - 1;
                    Ok(v)
                },
                Err(e) => Err(e),
            }
        } else if tt == TokenType::ArrayStart {
            match self.parse_array() {
                Ok(v) => {
                    self.depth = self.depth - 1;
                    Ok(v)
                },
                Err(e) => Err(e),
            }
        } else {
            let v = self.tokens[self.current].value.clone();
            self.advance();
            self.depth = self.depth - 1;
            Ok(Value::Str(v))
        }
    }

    /// Parses `name #...`: the named array becomes a one-entry object.
    fn parse_named_array(&mut self) -> (res: Result<Value, NeonError>)
        requires
            old(self).wf(),
            old(self).depth <= old(self).options.max_depth,
            old(self).current + 1 < old(self).tokens@.len(),
            views(old(self).tokens@)[old(self).current as int].token_type == TokenType::String,
            views(old(self).tokens@)[old(self).current as int + 1].token_type
                == TokenType::ArrayStart,
        ensures
            final(self).tokens == old(self).tokens,
            final(self).options == old(self).options,
            final(self).wf(),
            ({
                let toks = views(old(self).tokens@);
                let r = sp_array(
                    toks,
                    old(self).current as nat + 1,
                    old(self).depth as nat,
                    old(self).options,
                );
                match res {
                    Ok(v) => r matches Ok((am, j)) && v.deep() == ValueModel::Obj(
                        seq![(toks[old(self).current as int].value, am)],
                    ) && final(self).current == j && final(self).depth == old(self).depth,
                    Err(e) => r matches Err(em) && e@ == em,
                }
            }),
        decreases self.tokens@.len() - self.current, 0nat, 1nat,
    {
        let ghost toks = views(old(self).tokens@);
        proof {
            assert(toks[self.current as int] == self.tokens@[self.current as int]@);
        }
        let name = self.tokens[self.current].value.clone();
        let ghost nm = name@;
        self.advance();
        match self.parse_array() {
            Ok(arr) => {
                let ghost am = arr.deep();
                let mut entries: Vec<(String, Value)> = Vec::new();
                entries.push((name, arr));
                proof {
                    assert(entries@.len() == 1);
                    assert(entries@.drop_last() =~= Seq::<(String, Value)>::empty());
                    assert(deep_entries(entries@.drop_last()) == Seq::<
                        (Seq<char>, ValueModel),
                    >::empty());
                    assert(entries@.last().0@ == nm && entries@.last().1.deep() == am);
                    assert(nm == toks[old(self).current as int].value);
                    assert(deep_entries(entries@) =~= seq![
                        (toks[old(self).current as int].value, am),
                    ]);
                }
                Ok(Value::Object(entries))
            },
            Err(e) => Err(e),
        }
    }

    /// Parses an object after `@`.
    fn parse_object(&mut self) -> (res: Result<Value, NeonError>)
        requires
            old(self).wf(),
            old(self).depth <= old(self).options.max_depth,
        ensures
            final(self).tokens == old(self).tokens,
            final(self).options == old(self).options,
            final(self).wf(),
            ({
                let r = sp_object(
                    views(old(self).tokens@),
                    old(self).current as nat,
                    old(self).depth as nat,
                    old(self).options,
                );
                match res {
                    Ok(v) => r matches Ok((vm, j)) && v.deep() == vm && final(self).current == j
                        && final(self).depth == old(self).depth,
                    Err(e) => r matches Err(em) && e@ == em,
                }
            }),
        decreases self.tokens@.len() - self.current, 0nat, 1nat,
    {
        match self.expect(TokenType::ObjectStart) {
            Ok(_) => {},
            Err(e) => {
                return Err(e);
            },
        }
        match self.parse_entries(Vec::new()) {
            Ok(entries) => {
                proof {
                    assert(deep_entries(Seq::<(String, Value)>::empty()) =~= Seq::<
                        (Seq<char>, ValueModel),
                    >::empty());
                }
                Ok(Value::Object(entries))
            },
            Err(e) => Err(e),
        }
    }

    /// The entry loop of an object body, carried in `acc`.
    #[verifier::rlimit(100)]
    fn parse_entries(&mut self, acc: Vec<(String, Value)>) -> (res: Result<
        Vec<(String, Value)>,
        NeonError,
    >)
        requires
            old(self).wf(),
            old(self).depth <= old(self).options.max_depth,
        ensures
            final(self).tokens == old(self).tokens,
            final(self).options == old(self).options,
            final(self).wf(),
            ({
                let r = sp_entries(
                    views(old(self).tokens@),
                    old(self).current as nat,
                    old(self).depth as nat,
                    old(self).options,
                    deep_entries(acc@),
                );
                match res {
                    Ok(es) => r matches Ok((esm, j)) && deep_entries(es@) == esm && final(self).current == j
                        && final(self).depth == old(self).depth,
                    Err(e) => r matches Err(em) && e@ == em,
                }
            }),
        decreases self.tokens@.len() - self.current, 0nat, 3nat,
    {
        let ghost toks = views(old(self).tokens@);
        let ghost i = old(self).current as nat;
        let ghost d = old(self).depth as nat;
        let ghost opts = old(self).options;
        proof {
            assert(toks.len() == old(self).tokens@.len());
            if i < toks.len() {
                assert(toks[i as int] == self.tokens@[i as int]@);
            }
        }
        if self.current >= self.tokens.len() {
            return Ok(acc);
        }
        let tt = self.tokens[self.current].token_type;
        if tt == TokenType::Eof || tt == TokenType::Newline {
            return Ok(acc);
        }
        if tt != TokenType::String {
            return Ok(acc);
        }
        let kv = self.tokens[self.current].value.clone();
        let key = self.expand_abbreviation(kv.as_str());
        let ghost keym = sp_expand(toks[i as int].value, opts);
        self.advance();
        proof {
            if self.current < self.tokens.len() {
                assert(toks[self.current as int] == self.tokens@[self.current as int]@);
            }
        }
        if self.check(TokenType::Colon) {
            self.advance();
            proof {
                if self.current < self.tokens.len() {
                    assert(toks[self.current as int] == self.tokens@[self.current as int]@);
                }
            }
            if self.check(TokenType::ArrayStart) {
                let ghost i2 = self.current as nat;
                proof {
                    lemma_array_bounds(toks, i2, d, opts);
                }
                match self.parse_array() {
                    Ok(v) => {
                        let mut acc2 = acc;
                        crate::value::obj_insert(&mut acc2, key, v);
                        self.parse_entries(acc2)
                    },
                    Err(e) => Err(e),
                }
            } else if self.check(TokenType::Newline) {
                let ghost i2 = self.current as nat;
                proof {
                    lemma_skip_nl(toks, i2);
                }
                self.skip_newlines();
                proof {
                    if self.current < self.tokens.len() {
                        assert(toks[self.current as int] == self.tokens@[self.current as int]@);
                    }
                }
                if self.check(TokenType::Indent) {
                    self.advance();
                    let ghost jp = self.current as nat;
                    proof {
                        lemma_value_bounds(toks, jp, d, opts);
                    }
                    match self.parse_value() {
                        Ok(v) => {
                            let mut acc2 = acc;
                            crate::value::obj_insert(&mut acc2, key, v);
                            self.parse_entries(acc2)
                        },
                        Err(e) => Err(e),
                    }
                } else {
                    let mut acc2 = acc;
                    crate::value::obj_insert(&mut acc2, key, Value::Null);
                    self.parse_entries(acc2)
                }
            } else {
                let ghost i2 = self.current as nat;
                proof {
                    lemma_value_bounds(toks, i2, d, opts);
                }
                match self.parse_value() {
                    Ok(v) => {
                        let mut acc2 = acc;
                        crate::value::obj_insert(&mut acc2, key, v);
                        self.parse_entries(acc2)
                    },
                    Err(e) => Err(e),
                }
            }
        } else if self.check(TokenType::ArrayStart) {
            let ghost i1 = self.current as nat;
            proof {
                lemma_array_bounds(toks, i1, d, opts);
            }
            match self.parse_array() {
                Ok(v) => {
                    let mut acc2 = acc;
                    crate::value::obj_insert(&mut acc2, key, v);
                    self.parse_entries(acc2)
                },
                Err(e) => Err(e),
            }
        } else {
            Ok(acc)
        }
    }

    /// Parses an array after `#`.
    #[verifier::rlimit(100)]
    fn parse_array(&mut self) -> (res: Result<Value, NeonError>)
        requires
            old(self).wf(),
            old(self).depth <= old(self).options.max_depth,
        ensures
            final(self).tokens == old(self).tokens,
            final(self).options == old(self).options,
            final(self).wf(),
            ({
                let r = sp_array(
                    views(old(self).tokens@),
                    old(self).current as nat,
                    old(self).depth as nat,
                    old(self).options,
                );
                match res {
                    Ok(v) => r matches Ok((vm, j)) && v.deep() == vm && final(self).current == j
                        && final(self).depth == old(self).depth,
                    Err(e) => r matches Err(em) && e@ == em,
                }
            }),
        decreases self.tokens@.len() - self.current, 0nat, 1nat,
    {
        let ghost toks = views(old(self).tokens@);
        let ghost i = old(self).current as nat;
        let ghost d = old(self).depth as nat;
        let ghost opts = old(self).options;
        match self.expect(TokenType::ArrayStart) {
            Ok(_) => {},
            Err(e) => {
                return Err(e);
            },
        }
        proof {
            if self.current < self.tokens.len() {
                assert(toks[self.current as int] == self.tokens@[self.current as int]@);
            }
        }
        if !self.check(TokenType::Number) {
            return Err(NeonError::syntax("Expected array length", 0, 0));
        }
        let num = self.tokens[self.current].num;
        self.advance();
        let length: usize = if num.scale == 0 && !num.neg && num.mant <= usize::MAX as u128 {
            num.mant as usize
        } else {
            0
        };
        if length == 0 {
            proof {
                assert(deep_seq(Seq::<Value>::empty()) =~= Seq::<ValueModel>::empty());
            }
            return Ok(Value::Array(Vec::new()));
        }
        proof {
            if self.current < self.tokens.len() {
                assert(toks[self.current as int] == self.tokens@[self.current as int]@);
            }
        }
        let has_schema = self.check(TokenType::SchemaStart);
        let ghost i2 = self.current as nat;
        let fields: Vec<String> = if has_schema {
            self.advance();
            match self.parse_schema() {
                Ok(f) => f,
                Err(e) => {
                    return Err(e);
                },
            }
        } else {
            Vec::new()
        };
        proof {
            assert(toks.len() == old(self).tokens@.len());
            if !has_schema {
                assert(strs(fields@) =~= Seq::<Seq<char>>::empty());
            } else {
                lemma_schema_bounds(toks, i2 + 1, opts, Seq::empty());
            }
            if self.current < self.tokens.len() {
                assert(toks[self.current as int] == self.tokens@[self.current as int]@);
            }
        }
        let ghost i3 = self.current as nat;
        proof {
            assert(i < i3);
        }
        let inline = !self.check(TokenType::Newline) && !self.check(TokenType::Eof);
        if inline {
            proof {
                assert(deep_seq(Seq::<Value>::empty()) =~= Seq::<ValueModel>::empty());
            }
            match self.parse_inline(length, Vec::new()) {
                Ok(vs) => Ok(Value::Array(vs)),
                Err(e) => Err(e),
            }
        } else if has_schema {
            proof {
                assert(deep_seq(Seq::<Value>::empty()) =~= Seq::<ValueModel>::empty());
            }
            match self.parse_tabular_rows(length, &fields, Vec::new()) {
                Ok(vs) => Ok(Value::Array(vs)),
                Err(e) => Err(e),
            }
        } else {
            proof {
                assert(deep_seq(Seq::<Value>::empty()) =~= Seq::<ValueModel>::empty());
            }
            match self.parse_list_rows(length, Vec::new()) {
                Ok(vs) => Ok(Value::Array(vs)),
                Err(e) => Err(e),
            }
        }
    }

    /// The inline-value loop of an array, carried in `acc`.
    fn parse_inline(&mut self, remaining: usize, acc: Vec<Value>) -> (res: Result<
        Vec<Value>,
        NeonError,
    >)
        requires
            old(self).wf(),
            old(self).depth <= old(self).options.max_depth,
        ensures
            final(self).tokens == old(self).tokens,
            final(self).options == old(self).options,
            final(self).wf(),
            ({
                let r = sp_inline(
                    views(old(self).tokens@),
                    old(self).current as nat,
                    old(self).depth as nat,
                    old(self).options,
                    remaining as nat,
                    deep_seq(acc@),
                );
                match res {
                    Ok(vs) => r matches Ok((vsm, j)) && deep_seq(vs@) == vsm && final(self).current
                        == j && final(self).depth == old(self).depth,
                    Err(e) => r matches Err(em) && e@ == em,
                }
            }),
        decreases self.tokens@.len() - self.current, remaining, 3nat,
    {
        let ghost toks = views(old(self).tokens@);
        let ghost i = old(self).current as nat;
        let ghost d = old(self).depth as nat;
        let ghost opts = old(self).options;
        proof {
            assert(toks.len() == old(self).tokens@.len());
            if i < toks.len() {
                assert(toks[i as int] == self.tokens@[i as int]@);
            }
        }
        if remaining == 0 || self.current >= self.tokens.len() {
            return Ok(acc);
        }
        let tt = self.tokens[self.current].token_type;
        if tt == TokenType::Eof || tt == TokenType::Newline {
            return Ok(acc);
        }
        proof {
            lemma_value_bounds(toks, i, d, opts);
        }
        match self.parse_value() {
            Ok(v) => {
                let ghost vm = v.deep();
                let ghost accv = acc@;
                let ghost pre = deep_seq(acc@);
                let mut acc2 = acc;
                acc2.push(v);
                proof {
                    assert(acc2@.drop_last() =~= accv);
                    assert(deep_seq(acc2@) == deep_seq(acc2@.drop_last()).push(
                        acc2@.last().deep(),
                    ));
                    assert(deep_seq(acc2@) == pre.push(vm));
                }
                self.parse_inline(remaining - 1, acc2)
            },
            Err(e) => Err(e),
        }
    }

    /// The row loop of a schema array, carried in `acc`.
    fn parse_tabular_rows(&mut self, rows_left: usize, fields: &Vec<String>, acc: Vec<Value>) -> (res:
        Result<Vec<Value>, NeonError>)
        requires
            old(self).wf(),
            old(self).depth <= old(self).options.max_depth,
        ensures
            final(self).tokens == old(self).tokens,
            final(self).options == old(self).options,
            final(self).wf(),
            ({
                let r = sp_tab_rows(
                    views(old(self).tokens@),
                    old(self).current as nat,
                    old(self).depth as nat,
                    old(self).options,
                    strs(fields@),
                    rows_left as nat,
                    deep_seq(acc@),
                );
                match res {
                    Ok(vs) => r matches Ok((vsm, j)) && deep_seq(vs@) == vsm && final(self).current
                        == j && final(self).depth == old(self).depth,
                    Err(e) => r matches Err(em) && e@ == em,
                }
            }),
        decreases self.tokens@.len() - self.current, rows_left, 4nat,
    {
        let ghost toks = views(old(self).tokens@);
        let ghost i = old(self).current as nat;
        let ghost d = old(self).depth as nat;
        let ghost opts = old(self).options;
        if rows_left == 0 {
            return Ok(acc);
        }
        proof {
            lemma_skip_nl(toks, i);
        }
        self.skip_newlines();
        proof {
            if self.current < self.tokens.len() {
                assert(toks[self.current as int] == self.tokens@[self.current as int]@);
            }
        }
        if self.check(TokenType::Indent) {
            self.advance();
        }
        let ghost j1 = self.current as nat;
        proof {
            assert(deep_entries(Seq::<(String, Value)>::empty()) =~= Seq::<
                (Seq<char>, ValueModel),
            >::empty());
        }
        match self.parse_tab_fields(fields, 0, Vec::new(), Ghost(rows_left as nat)) {
            Ok(obj) => {
                let ghost j2 = self.current as nat;
                proof {
                    lemma_tab_fields_bounds(toks, j1, d, opts, strs(fields@), 0, rows_left as nat, Seq::empty());
                }
                let ghost accv = acc@;
                let ghost pre = deep_seq(acc@);
                let ghost om = ValueModel::Obj(deep_entries(obj@));
                let mut acc2 = acc;
                acc2.push(Value::Object(obj));
                proof {
                    assert(acc2@.drop_last() =~= accv);
                    assert(deep_seq(acc2@) == deep_seq(acc2@.drop_last()).push(
                        acc2@.last().deep(),
                    ));
                    assert(acc2@.last().deep() == om);
                    assert(deep_seq(acc2@) == pre.push(om));
                }
                self.parse_tabular_rows(rows_left - 1, fields, acc2)
            },
            Err(e) => Err(e),
        }
    }

    /// The field loop of one schema row, carried in `obj`.
    fn parse_tab_fields(
        &mut self,
        fields: &Vec<String>,
        fi: usize,
        obj: Vec<(String, Value)>,
        rows: Ghost<nat>,
    ) -> (res: Result<Vec<(String, Value)>, NeonError>)
        requires
            old(self).wf(),
            old(self).depth <= old(self).options.max_depth,
            fi <= fields@.len(),
        ensures
            final(self).tokens == old(self).tokens,
            final(self).options == old(self).options,
            final(self).wf(),
            ({
                let r = sp_tab_fields(
                    views(old(self).tokens@),
                    old(self).current as nat,
                    old(self).depth as nat,
                    old(self).options,
                    strs(fields@),
                    fi as nat,
                    rows@,
                    deep_entries(obj@),
                );
                match res {
                    Ok(o) => r matches Ok((om, j)) && deep_entries(o@) == om && final(self).current
                        == j && final(self).depth == old(self).depth,
                    Err(e) => r matches Err(em) && e@ == em,
                }
            }),
        decreases self.tokens@.len() - self.current, rows@, 3nat,
    {
        let ghost toks = views(old(self).tokens@);
        let ghost i = old(self).current as nat;
        let ghost d = old(self).depth as nat;
        let ghost opts = old(self).options;
        proof {
            assert(toks.len() == old(self).tokens@.len());
            if i < toks.len() {
                assert(toks[i as int] == self.tokens@[i as int]@);
            }
        }
        if fi >= fields.len() || self.current >= self.tokens.len() {
            return Ok(obj);
        }
        let tt = self.tokens[self.current].token_type;
        if tt == TokenType::Eof || tt == TokenType::Newline {
            return Ok(obj);
        }
        proof {
            lemma_value_bounds(toks, i, d, opts);
        }
        match self.parse_value() {
            Ok(v) => {
                let ghost vm = v.deep();
                let ghost pre = deep_entries(obj@);
                let field = fields[fi].clone();
                let ghost fm = strs(fields@)[fi as int];
                proof {
                    assert(field@ == fm);
                }
                let mut obj2 = obj;
                crate::value::obj_insert(&mut obj2, field, v);
                self.parse_tab_fields(fields, fi + 1, obj2, Ghost(rows@))
            },
            Err(e) => Err(e),
        }
    }

    /// The row loop of a plain multiline array, carried in `acc`.
    fn parse_list_rows(&mut self, rows_left: usize, acc: Vec<Value>) -> (res: Result<
        Vec<Value>,
        NeonError,
    >)
        requires
            old(self).wf(),
            old(self).depth <= old(self).options.max_depth,
        ensures
            final(self).tokens == old(self).tokens,
            final(self).options == old(self).options,
            final(self).wf(),
            ({
                let r = sp_list_rows(
                    views(old(self).tokens@),
                    old(self).current as nat,
                    old(self).depth as nat,
                    old(self).options,
                    rows_left as nat,
                    deep_seq(acc@),
                );
                match res {
                    Ok(vs) => r matches Ok((vsm, j)) && deep_seq(vs@) == vsm && final(self).current
                        == j && final(self).depth == old(self).depth,
                    Err(e) => r matches Err(em) && e@ == em,
                }
            }),
        decreases self.tokens@.len() - self.current, rows_left, 4nat,
    {
        let ghost toks = views(old(self).tokens@);
        let ghost i = old(self).current as nat;
        let ghost d = old(self).depth as nat;
        let ghost opts = old(self).options;
        if rows_left == 0 {
            return Ok(acc);
        }
        proof {
            lemma_skip_nl(toks, i);
        }
        self.skip_newlines();
        proof {
            if self.current < self.tokens.len() {
                assert(toks[self.current as int] == self.tokens@[self.current as int]@);
            }
        }
        if self.check(TokenType::Indent) {
            self.advance();
        }
        proof {
            if self.current < self.tokens.len() {
                assert(toks[self.current as int] == self.tokens@[self.current as int]@);
            }
        }
        if self.check(TokenType::ListItem) {
            self.advance();
        }
        let ghost j2 = self.current as nat;
        proof {
            lemma_value_bounds(toks, j2, d, opts);
        }
        match self.parse_value() {
            Ok(v) => {
                let ghost vm = v.deep();
                let ghost accv = acc@;
                let ghost pre = deep_seq(acc@);
                let mut acc2 = acc;
                acc2.push(v);
                proof {
                    assert(acc2@.drop_last() =~= accv);
                    assert(deep_seq(acc2@) == deep_seq(acc2@.drop_last()).push(
                        acc2@.last().deep(),
                    ));
                    assert(deep_seq(acc2@) == pre.push(vm));
                }
                self.parse_list_rows(rows_left - 1, acc2)
            },
            Err(e) => Err(e),
        }
    }

    /// Parses a token stream as one document: leading newlines, then
    /// nothing (`Null`) or a single value.
    pub fn parse(&mut self, tokens: Vec<Token>) -> (res: Result<Value, NeonError>)
        requires
            old(self).options.max_depth < usize::MAX,
            tokens@.len() < usize::MAX,
        ensures
            ({
                let r = sp_parse(views(tokens@), old(self).options);
                match res {
                    Ok(v) => r matches Ok(vm) && v.deep() == vm,
                    Err(e) => r matches Err(em) && e@ == em,
                }
            }),
    {
        let ghost toks = views(tokens@);
        self.tokens = tokens;
        self.current = 0;
        self.depth = 0;
        proof {
            assert(toks.len() == self.tokens@.len());
            lemma_skip_nl(toks, 0);
        }
        self.skip_newlines();
        if self.is_at_end() {
            return Ok(Value::Null);
        }
        match self.parse_value() {
            Ok(v) => Ok(v),
            Err(e) => Err(e),
        }
    }
}

} // verus!
