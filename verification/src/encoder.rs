//! The encoder: a value tree to NEON text.
//!
//! Recursive descent over the value, choosing per-array layout
//! (inline primitive, tabular, list) and applying literal
//! compression.  Its behaviour is specified by [`spec_enc_value`] and
//! the `spec_enc_*` family below, which the executable methods are
//! proved to follow.

use vstd::prelude::*;
use vstd::string::StrSliceExecFns;
use vstd::string::StringExecFns;
use vstd::string::StringSliceAdditionalSpecFns;
use crate::error::NeonError;
use crate::number::{
    Number, spec_compress_number, compress_number, spec_digits, spec_digits_end, format_u128,
};
use crate::types::{
    NeonEncodeOptions, NeonStats, get_abbreviations, lookup_table, spec_abbrev_key,
    spec_abbreviations,
};
use crate::value::{Value, ValueModel, deep_entries, deep_seq, spec_obj_get};
use crate::lexer::{spec_is_suffix, is_suffix_char};
use crate::text::{str_chars, chars_string, subvec};

verus! {

// ---------------------------------------------------------------
// string quoting
// ---------------------------------------------------------------
/// Whether `s` matches the number shape `-? digits (. digits)?
/// [KMBT]?`, which an unquoted string must not.
pub open spec fn spec_is_num_like(s: Seq<char>) -> bool {
    let b = if s.len() > 0 && s[0] == '-' {
        s.drop_first()
    } else {
        s
    };
    let b2 = if b.len() > 0 && spec_is_suffix(b.last()) {
        b.drop_last()
    } else {
        b
    };
    let ie = spec_digits_end(b2, 0);
    &&& ie > 0
    &&& (ie == b2.len() || (ie < b2.len() && b2[ie as int] == '.' && spec_digits_end(b2, ie + 1)
        == b2.len() && b2.len() > ie + 1))
}

/// Whether the string `s` must be quoted: empty; holding a special
/// character or the configured delimiter; space-margined; a literal
/// `T`, `F` or `N`; number-shaped; or starting with a sigil.
pub open spec fn spec_needs_quotes(s: Seq<char>, delimiter: char) -> bool {
    ||| s.len() == 0
    ||| s.contains(':')
    ||| s.contains('"')
    ||| s.contains('\\')
    ||| s.contains('\n')
    ||| s.contains('\r')
    ||| s.contains('\t')
    ||| (delimiter != ' ' && s.contains(delimiter))
    ||| (s.len() > 0 && (s[0] == ' ' || s.last() == ' '))
    ||| s == seq!['T']
    ||| s == seq!['F']
    ||| s == seq!['N']
    ||| spec_is_num_like(s)
    ||| (s.len() > 0 && (s[0] == '#' || s[0] == '@' || s[0] == '$' || s[0] == '~' || s[0] == '^'
        || s[0] == '>' || s[0] == '-'))
}

/// The escape of one character inside a quoted string.
pub open spec fn spec_esc_char(c: char) -> Seq<char> {
    if c == '\\' {
        seq!['\\', '\\']
    } else if c == '"' {
        seq!['\\', '"']
    } else if c == '\n' {
        seq!['\\', 'n']
    } else if c == '\r' {
        seq!['\\', 'r']
    } else if c == '\t' {
        seq!['\\', 't']
    } else {
        seq![c]
    }
}

/// `s` with every special character escaped.
pub open spec fn spec_escape(s: Seq<char>) -> Seq<char>
    decreases s.len(),
{
    if s.len() == 0 {
        Seq::empty()
    } else {
        spec_escape(s.drop_last()) + spec_esc_char(s.last())
    }
}

/// Each space replaced by an underscore.
pub open spec fn spec_space_to_underscore(s: Seq<char>) -> Seq<char> {
    s.map_values(
        |c: char|
            if c == ' ' {
                '_'
            } else {
                c
            },
    )
}

/// The text of the string value `s`: quoted and escaped when it needs
/// quotes, else bare with spaces as underscores.
pub open spec fn spec_enc_string(s: Seq<char>, opts: NeonEncodeOptions) -> Seq<char> {
    if s.len() == 0 {
        seq!['"', '"']
    } else if spec_needs_quotes(s, opts.delimiter) {
        seq!['"'] + spec_escape(s) + seq!['"']
    } else {
        spec_space_to_underscore(s)
    }
}

/// The text of the object key `k`: abbreviated when the options ask
/// for it, quoted only for the few characters a key cannot carry
/// bare.
pub open spec fn spec_enc_key(k: Seq<char>, opts: NeonEncodeOptions) -> Seq<char> {
    if k.len() == 0 {
        seq!['"', '"']
    } else {
        let k2 = if opts.abbreviate_fields {
            spec_abbrev_key(k)
        } else {
            k
        };
        if k2.contains(':') || k2.contains('"') || k2.contains('\\') || k2.contains('\n') {
            seq!['"'] + spec_escape(k2) + seq!['"']
        } else {
            spec_space_to_underscore(k2)
        }
    }
}

// ---------------------------------------------------------------
// sizes, for termination of the encoder
// ---------------------------------------------------------------
/// The structural size of a value.
pub open spec fn vm_size(v: ValueModel) -> nat
    decreases v,
{
    match v {
        ValueModel::Null => 1,
        ValueModel::Bool(_) => 1,
        ValueModel::Num(_) => 1,
        ValueModel::Str(_) => 1,
        ValueModel::Arr(a) => 1 + vms_size(a),
        ValueModel::Obj(o) => 1 + vmo_size(o),
    }
}

/// The summed size of a value sequence.
pub open spec fn vms_size(a: Seq<ValueModel>) -> nat
    decreases a,
{
    if a.len() == 0 {
        0
    } else {
        vms_size(a.drop_last()) + vm_size(a.last())
    }
}

/// The summed size of an entry list.
pub open spec fn vmo_size(o: Seq<(Seq<char>, ValueModel)>) -> nat
    decreases o,
{
    if o.len() == 0 {
        0
    } else {
        vmo_size(o.drop_last()) + vm_size(o.last().1)
    }
}

pub proof fn lemma_vm_size_pos(v: ValueModel)
    ensures
        vm_size(v) >= 1,
{
}

pub proof fn lemma_vms_elem(a: Seq<ValueModel>, i: int)
    requires
        0 <= i < a.len(),
    ensures
        vm_size(a[i]) <= vms_size(a),
    decreases a.len(),
{
    if i == a.len() - 1 {
    } else {
        assert(a.drop_last()[i] == a[i]);
        lemma_vms_elem(a.drop_last(), i);
    }
}

pub proof fn lemma_vmo_elem(o: Seq<(Seq<char>, ValueModel)>, i: int)
    requires
        0 <= i < o.len(),
    ensures
        vm_size(o[i].1) <= vmo_size(o),
    decreases o.len(),
{
    if i == o.len() - 1 {
    } else {
        assert(o.drop_last()[i] == o[i]);
        lemma_vmo_elem(o.drop_last(), i);
    }
}

/// A looked-up value is no larger than its entry list.
pub proof fn lemma_obj_get_size(o: Seq<(Seq<char>, ValueModel)>, key: Seq<char>)
    ensures
        spec_obj_get(o, key) matches Some(v) ==> vm_size(v) <= vmo_size(o),
    decreases o.len(),
{
    if o.len() > 0 {
        if o[0].0 == key {
            lemma_vmo_elem(o, 0);
        } else {
            lemma_obj_get_size(o.drop_first(), key);
            match spec_obj_get(o.drop_first(), key) {
                Some(v) => {
                    assert(exists|i: int|
                        0 <= i < o.drop_first().len() && o.drop_first()[i].1 == v && vm_size(v)
                            <= vmo_size(o.drop_first())) by {
                        lemma_obj_get_index(o.drop_first(), key);
                    }
                    lemma_obj_get_index(o, key);
                    let i = choose|i: int| 0 <= i < o.len() && o[i].1 == v && spec_obj_get(o, key)
                        == Some(o[i].1);
                    lemma_vmo_elem(o, i);
                },
                None => {},
            }
        }
    }
}

/// A looked-up value stands at some index of its entry list.
pub proof fn lemma_obj_get_index(o: Seq<(Seq<char>, ValueModel)>, key: Seq<char>)
    ensures
        spec_obj_get(o, key) matches Some(v) ==> exists|i: int|
            0 <= i < o.len() && o[i].1 == v && spec_obj_get(o, key) == Some(o[i].1),
    decreases o.len(),
{
    if o.len() > 0 {
        if o[0].0 == key {
        } else {
            lemma_obj_get_index(o.drop_first(), key);
            match spec_obj_get(o.drop_first(), key) {
                Some(v) => {
                    let i = choose|i: int|
                        0 <= i < o.drop_first().len() && o.drop_first()[i].1 == v && spec_obj_get(
                            o.drop_first(),
                            key,
                        ) == Some(o.drop_first()[i].1);
                    assert(o[i + 1] == o.drop_first()[i]);
                },
                None => {},
            }
        }
    }
}

// ---------------------------------------------------------------
// layout helpers
// ---------------------------------------------------------------
/// The keys of an object value, in order; empty for any other value.
pub open spec fn keys_of(v: ValueModel) -> Seq<Seq<char>> {
    match v {
        ValueModel::Obj(o) => o.map_values(|p: (Seq<char>, ValueModel)| p.0),
        _ => Seq::empty(),
    }
}

/// Whether a value is a container.
pub open spec fn spec_is_container(v: ValueModel) -> bool {
    v is Arr || v is Obj
}

/// Tabular shape: non-empty, all objects, every key set equal to the
/// first row's.
pub open spec fn spec_is_tabular(a: Seq<ValueModel>) -> bool {
    &&& a.len() > 0
    &&& a[0] is Obj
    &&& forall|i: int|
        0 <= i < a.len() ==> (#[trigger] a[i]) is Obj && keys_of(a[i]).to_set() == keys_of(
            a[0],
        ).to_set()
}

/// `parts` joined by `sep`.
pub open spec fn spec_join(parts: Seq<Seq<char>>, sep: Seq<char>) -> Seq<char>
    decreases parts.len(),
{
    if parts.len() == 0 {
        Seq::empty()
    } else if parts.len() == 1 {
        parts[0]
    } else {
        spec_join(parts.drop_last(), sep) + sep + parts.last()
    }
}

/// `n` spaces, saturated at `usize::MAX`.
pub open spec fn spec_sat_mul(a: nat, b: nat) -> nat {
    if a * b <= usize::MAX {
        a * b
    } else {
        usize::MAX as nat
    }
}

/// One deeper, saturated at `usize::MAX`.
pub open spec fn spec_sat_inc(d: nat) -> nat {
    if d + 1 <= usize::MAX {
        d + 1
    } else {
        d
    }
}

/// The indentation of nesting level `k`.
pub open spec fn spec_indent(opts: NeonEncodeOptions, k: nat) -> Seq<char> {
    Seq::new(spec_sat_mul(opts.indent as nat, k), |i: int| ' ')
}

/// A schema field, abbreviated when the options ask for it.
pub open spec fn spec_schema_field(f: Seq<char>, opts: NeonEncodeOptions) -> Seq<char> {
    if opts.abbreviate_fields {
        spec_abbrev_key(f)
    } else {
        f
    }
}

/// The schema fields of a row, abbreviated, in order.
pub open spec fn spec_schema_fields(fields: Seq<Seq<char>>, opts: NeonEncodeOptions) -> Seq<
    Seq<char>,
>
    decreases fields.len(),
{
    if fields.len() == 0 {
        Seq::empty()
    } else {
        spec_schema_fields(fields.drop_last(), opts).push(
            spec_schema_field(fields.last(), opts),
        )
    }
}

// ---------------------------------------------------------------
// the encoder itself
// ---------------------------------------------------------------
/// The NEON text of the value `v` at nesting level `depth`.
pub open spec fn spec_enc_value(v: ValueModel, opts: NeonEncodeOptions, depth: nat) -> Seq<char>
    decreases vm_size(v), 0nat, 2nat,
{
    match v {
        ValueModel::Null => if opts.compress_nulls {
            seq!['N']
        } else {
            seq!['n', 'u', 'l', 'l']
        },
        ValueModel::Bool(b) => if opts.compress_booleans {
            if b {
                seq!['T']
            } else {
                seq!['F']
            }
        } else {
            if b {
                seq!['t', 'r', 'u', 'e']
            } else {
                seq!['f', 'a', 'l', 's', 'e']
            }
        },
        ValueModel::Num(n) => spec_compress_number(n, opts.compress_numbers),
        ValueModel::Str(s) => spec_enc_string(s, opts),
        ValueModel::Arr(a) => spec_enc_array(a, opts, depth),
        ValueModel::Obj(o) => spec_enc_object(o, opts, depth),
    }
}

/// The text of an array: `#0`, a tabular block, one inline line, or a
/// `-`-marked list.
pub open spec fn spec_enc_array(a: Seq<ValueModel>, opts: NeonEncodeOptions, depth: nat) -> Seq<
    char,
>
    decreases vms_size(a), 1nat, 6nat,
{
    if a.len() == 0 {
        seq!['#', '0']
    } else if spec_is_tabular(a) {
        spec_enc_tabular(a, opts, depth)
    } else if forall|i: int| 0 <= i < a.len() ==> !spec_is_container(#[trigger] a[i]) {
        seq!['#'] + spec_digits(a.len()) + seq![' '] + spec_join(
            spec_prim_parts(a, opts),
            seq![opts.delimiter],
        )
    } else {
        seq!['#'] + spec_digits(a.len()) + spec_list_tail(a, opts, depth)
    }
}

/// The encoded elements of a primitive array, each at level zero.
pub open spec fn spec_prim_parts(a: Seq<ValueModel>, opts: NeonEncodeOptions) -> Seq<Seq<char>>
    decreases vms_size(a), 1nat, 3nat,
    via spec_prim_parts_dec
{
    if a.len() == 0 {
        Seq::empty()
    } else {
        spec_prim_parts(a.drop_last(), opts).push(spec_enc_value(a.last(), opts, 0))
    }
}

#[via_fn]
proof fn spec_prim_parts_dec(a: Seq<ValueModel>, opts: NeonEncodeOptions) {
    if a.len() > 0 {
        lemma_vm_size_pos(a.last());
    }
}

/// The `- value` lines of a list array.
pub open spec fn spec_list_tail(a: Seq<ValueModel>, opts: NeonEncodeOptions, depth: nat) -> Seq<
    char,
>
    decreases vms_size(a), 1nat, 3nat,
    via spec_list_tail_dec
{
    if a.len() == 0 {
        Seq::empty()
    } else {
        spec_list_tail(a.drop_last(), opts, depth) + opts.line_ending@ + spec_indent(
            opts,
            depth + 1,
        ) + seq!['-', ' '] + spec_enc_value(a.last(), opts, spec_sat_inc(depth))
    }
}

#[via_fn]
proof fn spec_list_tail_dec(a: Seq<ValueModel>, opts: NeonEncodeOptions, depth: nat) {
    if a.len() > 0 {
        lemma_vm_size_pos(a.last());
    }
}

/// The header of a tabular array: `#n^f1,f2,...`.
pub open spec fn spec_tab_header(a: Seq<ValueModel>, opts: NeonEncodeOptions) -> Seq<char> {
    seq!['#'] + spec_digits(a.len()) + seq!['^'] + spec_join(
        spec_schema_fields(keys_of(a[0]), opts),
        seq![','],
    )
}

/// One tabular row: the fields of the first row looked up in this
/// row's object, joined by the delimiter (a missing field is empty).
pub open spec fn spec_tab_row(
    o: Seq<(Seq<char>, ValueModel)>,
    fields: Seq<Seq<char>>,
    opts: NeonEncodeOptions,
    depth: nat,
) -> Seq<Seq<char>>
    decreases vmo_size(o), fields.len(), 3nat,
    via spec_tab_row_dec
{
    if fields.len() == 0 {
        Seq::empty()
    } else {
        let rest = spec_tab_row(o, fields.drop_last(), opts, depth);
        let cell = match spec_obj_get(o, fields.last()) {
            Some(v) => spec_enc_value(v, opts, spec_sat_inc(depth)),
            None => Seq::<char>::empty(),
        };
        rest.push(cell)
    }
}

#[via_fn]
proof fn spec_tab_row_dec(
    o: Seq<(Seq<char>, ValueModel)>,
    fields: Seq<Seq<char>>,
    opts: NeonEncodeOptions,
    depth: nat,
) {
    if fields.len() > 0 {
        lemma_obj_get_size(o, fields.last());
    }
}

/// The row lines of a tabular array.
pub open spec fn spec_tab_body(
    a: Seq<ValueModel>,
    fields: Seq<Seq<char>>,
    opts: NeonEncodeOptions,
    depth: nat,
    indent: Seq<char>,
) -> Seq<char>
    decreases vms_size(a), 1nat, 4nat,
    via spec_tab_body_dec
{
    if a.len() == 0 {
        Seq::empty()
    } else {
        let rest = spec_tab_body(a.drop_last(), fields, opts, depth, indent);
        let row = match a.last() {
            ValueModel::Obj(o) => opts.line_ending@ + indent + spec_join(
                spec_tab_row(o, fields, opts, depth),
                seq![opts.delimiter],
            ),
            _ => Seq::<char>::empty(),
        };
        rest + row
    }
}

#[via_fn]
proof fn spec_tab_body_dec(
    a: Seq<ValueModel>,
    fields: Seq<Seq<char>>,
    opts: NeonEncodeOptions,
    depth: nat,
    indent: Seq<char>,
) {
    if a.len() > 0 {
        lemma_vm_size_pos(a.last());
        match a.last() {
            ValueModel::Obj(o) => {
                assert(vm_size(a.last()) == 1 + vmo_size(o));
            },
            _ => {},
        }
    }
}

/// The text of a tabular array: header, then one indented row per
/// object.
pub open spec fn spec_enc_tabular(a: Seq<ValueModel>, opts: NeonEncodeOptions, depth: nat) -> Seq<
    char,
>
    decreases vms_size(a), 1nat, 5nat,
{
    spec_tab_header(a, opts) + spec_tab_body(
        a,
        keys_of(a[0]),
        opts,
        depth,
        spec_indent(opts, depth + 1),
    )
}

/// The `key:value` part of one object entry.  A non-empty object
/// value is braced without its `@`; an array value follows its key
/// with no colon; anything else is `key:text`.
pub open spec fn spec_obj_part(
    p: (Seq<char>, ValueModel),
    opts: NeonEncodeOptions,
    depth: nat,
) -> Seq<char>
    decreases vm_size(p.1), 0nat, 3nat,
{
    let ek = spec_enc_key(p.0, opts);
    match p.1 {
        ValueModel::Obj(o) => if o.len() > 0 {
            ek + seq![':', '{'] + spec_enc_object(o, opts, spec_sat_inc(depth)).drop_first()
                + seq!['}']
        } else {
            ek + seq![':'] + spec_enc_value(p.1, opts, depth)
        },
        ValueModel::Arr(a) => ek + spec_enc_array(a, opts, spec_sat_inc(depth)),
        _ => ek + seq![':'] + spec_enc_value(p.1, opts, depth),
    }
}

/// The entry parts of an object, in order.
pub open spec fn spec_obj_parts(
    o: Seq<(Seq<char>, ValueModel)>,
    opts: NeonEncodeOptions,
    depth: nat,
) -> Seq<Seq<char>>
    decreases vmo_size(o), 1nat, 3nat,
    via spec_obj_parts_dec
{
    if o.len() == 0 {
        Seq::empty()
    } else {
        spec_obj_parts(o.drop_last(), opts, depth).push(spec_obj_part(o.last(), opts, depth))
    }
}

#[via_fn]
proof fn spec_obj_parts_dec(o: Seq<(Seq<char>, ValueModel)>, opts: NeonEncodeOptions, depth: nat) {
    if o.len() > 0 {
        lemma_vm_size_pos(o.last().1);
    }
}

/// The text of an object: `@` and its space-joined entries; at the
/// root, a single tabular-array entry collapses to the named-array
/// form `key#n^...`.
pub open spec fn spec_enc_object(
    o: Seq<(Seq<char>, ValueModel)>,
    opts: NeonEncodeOptions,
    depth: nat,
) -> Seq<char>
    decreases vmo_size(o), 2nat, 4nat,
    via spec_enc_object_dec
{
    if o.len() == 0 {
        seq!['@']
    } else if depth == 0 && o.len() == 1 && o[0].1 is Arr && spec_is_tabular(o[0].1->Arr_0) {
        let a = o[0].1->Arr_0;
        o[0].0 + spec_tab_header(a, opts) + spec_tab_body(
            a,
            keys_of(a[0]),
            opts,
            0,
            spec_indent(opts, 1),
        )
    } else {
        seq!['@'] + spec_join(spec_obj_parts(o, opts, depth), seq![' '])
    }
}

#[via_fn]
proof fn spec_enc_object_dec(o: Seq<(Seq<char>, ValueModel)>, opts: NeonEncodeOptions, depth: nat) {
    if o.len() > 0 && depth == 0 && o.len() == 1 && o[0].1 is Arr {
        lemma_vmo_elem(o, 0);
        assert(vm_size(o[0].1) == 1 + vms_size(o[0].1->Arr_0));
    }
}

// ---------------------------------------------------------------
// executable helpers
// ---------------------------------------------------------------
/// Whether `cs` holds the character `c`.
fn contains_char(cs: &Vec<char>, c: char) -> (r: bool)
    ensures
        r == cs@.contains(c),
{
    let mut i: usize = 0;
    while i < cs.len()
        invariant
            i <= cs@.len(),
            forall|j: int| 0 <= j < i ==> cs@[j] != c,
        decreases cs@.len() - i,
    {
        if cs[i] == c {
            return true;
        }
        i = i + 1;
    }
    false
}

/// Whether the string `s` must be quoted when emitted bare would be
/// ambiguous: see [`spec_needs_quotes`].
pub fn needs_quotes(s: &str, delimiter: char) -> (r: bool)
    ensures
        r == spec_needs_quotes(s@, delimiter),
{
    let cs = str_chars(s);
    if cs.len() == 0 {
        return true;
    }
    if contains_char(&cs, ':') || contains_char(&cs, '"') || contains_char(&cs, '\\')
        || contains_char(&cs, '\n') || contains_char(&cs, '\r') || contains_char(&cs, '\t') {
        return true;
    }
    if delimiter != ' ' && contains_char(&cs, delimiter) {
        return true;
    }
    if cs[0] == ' ' || cs[cs.len() - 1] == ' ' {
        return true;
    }
    if cs.len() == 1 && (cs[0] == 'T' || cs[0] == 'F' || cs[0] == 'N') {
        proof {
            if cs@[0] == 'T' {
                assert(cs@ =~= seq!['T']);
            } else if cs@[0] == 'F' {
                assert(cs@ =~= seq!['F']);
            } else {
                assert(cs@ =~= seq!['N']);
            }
        }
        return true;
    }
    proof {
        if s@ == seq!['T'] || s@ == seq!['F'] || s@ == seq!['N'] {
            assert(cs@.len() == 1);
        }
    }
    if is_num_like(&cs) {
        return true;
    }
    let c0 = cs[0];
    if c0 == '#' || c0 == '@' || c0 == '$' || c0 == '~' || c0 == '^' || c0 == '>' || c0 == '-' {
        return true;
    }
    false
}

/// Whether the characters match the number shape of
/// [`spec_is_num_like`].
fn is_num_like(cs: &Vec<char>) -> (r: bool)
    ensures
        r == spec_is_num_like(cs@),
{
    let len = cs.len();
    let st: usize = if len > 0 && cs[0] == '-' {
        1
    } else {
        0
    };
    let ghost b = if cs@.len() > 0 && cs@[0] == '-' {
        cs@.drop_first()
    } else {
        cs@
    };
    proof {
        assert(b =~= cs@.subrange(st as int, len as int));
    }
    let en: usize = if len > st && is_suffix_char(cs[len - 1]) {
        len - 1
    } else {
        len
    };
    let ghost b2 = if b.len() > 0 && spec_is_suffix(b.last()) {
        b.drop_last()
    } else {
        b
    };
    proof {
        assert(b2 =~= cs@.subrange(st as int, en as int));
    }
    let ie = crate::number::scan_digits(cs, st, st, en);
    if ie == st {
        return false;
    }
    if ie == en {
        return true;
    }
    if cs[ie] == '.' {
        proof {
            assert(b2[ie - st] == cs@[ie as int]);
        }
        let fe = crate::number::scan_digits(cs, st, ie + 1, en);
        fe == en && en > ie + 1
    } else {
        proof {
            assert(b2[ie - st] == cs@[ie as int]);
        }
        false
    }
}

/// The escaped text of `s`: each of `\\`, `"`, newline, carriage
/// return and tab written with a backslash.
pub fn escape_string(s: &str) -> (r: String)
    ensures
        r@ == spec_escape(s@),
{
    let cs = str_chars(s);
    let mut out: Vec<char> = Vec::new();
    let mut i: usize = 0;
    while i < cs.len()
        invariant
            i <= cs@.len(),
            cs@ == s@,
            out@ == spec_escape(s@.subrange(0, i as int)),
        decreases cs@.len() - i,
    {
        let ghost pre = s@.subrange(0, i as int);
        let c = cs[i];
        if c == '\\' {
            out.push('\\');
            out.push('\\');
        } else if c == '"' {
            out.push('\\');
            out.push('"');
        } else if c == '\n' {
            out.push('\\');
            out.push('n');
        } else if c == '\r' {
            out.push('\\');
            out.push('r');
        } else if c == '\t' {
            out.push('\\');
            out.push('t');
        } else {
            out.push(c);
        }
        proof {
            let nxt = s@.subrange(0, i as int + 1);
            assert(nxt.drop_last() =~= pre);
            assert(nxt.last() == c);
            assert(out@ =~= spec_escape(pre) + spec_esc_char(c));
        }
        i = i + 1;
    }
    proof {
        assert(s@.subrange(0, s@.len() as int) =~= s@);
    }
    chars_string(&out)
}

/// The characters of `cs` with each space replaced by an underscore.
fn map_space(cs: &Vec<char>) -> (r: Vec<char>)
    ensures
        r@ == spec_space_to_underscore(cs@),
{
    let mut out: Vec<char> = Vec::new();
    let mut i: usize = 0;
    while i < cs.len()
        invariant
            i <= cs@.len(),
            out@.len() == i,
            forall|j: int|
                0 <= j < i ==> out@[j] == (if cs@[j] == ' ' {
                    '_'
                } else {
                    cs@[j]
                }),
        decreases cs@.len() - i,
    {
        let c = cs[i];
        if c == ' ' {
            out.push('_');
        } else {
            out.push(c);
        }
        i = i + 1;
    }
    proof {
        assert(out@ =~= spec_space_to_underscore(cs@));
    }
    out
}

/// One deeper, saturated at `usize::MAX`.
fn sat_inc(d: usize) -> (r: usize)
    ensures
        r == spec_sat_inc(d as nat),
{
    if d < usize::MAX {
        d + 1
    } else {
        d
    }
}

/// `a * b`, saturated at `usize::MAX`.
fn sat_mul(a: usize, b: usize) -> (r: usize)
    ensures
        r == spec_sat_mul(a as nat, b as nat),
{
    if a == 0 || b == 0 {
        proof {
            assert(a as nat * b as nat == 0) by (nonlinear_arith)
                requires
                    a == 0 || b == 0,
            ;
        }
        0
    } else if a > usize::MAX / b {
        proof {
            let m = usize::MAX as nat;
            let bb = b as nat;
            let q = m / bb;
            vstd::arithmetic::div_mod::lemma_fundamental_div_mod(usize::MAX as int, b as int);
            assert(a as nat * bb > m) by (nonlinear_arith)
                requires
                    a as nat >= q + 1,
                    bb >= 1,
                    m == bb * q + m % bb,
                    m % bb < bb,
            ;
        }
        usize::MAX
    } else {
        proof {
            let m = usize::MAX as nat;
            let bb = b as nat;
            let q = m / bb;
            vstd::arithmetic::div_mod::lemma_fundamental_div_mod(usize::MAX as int, b as int);
            assert(a as nat * bb <= m) by (nonlinear_arith)
                requires
                    a as nat <= q,
                    bb >= 1,
                    m == bb * q + m % bb,
                    m % bb >= 0,
            ;
        }
        a * b
    }
}

/// `n` spaces.
fn spaces(n: usize) -> (r: Vec<char>)
    ensures
        r@ == Seq::new(n as nat, |i: int| ' '),
{
    let mut out: Vec<char> = Vec::new();
    let mut i: usize = 0;
    while i < n
        invariant
            i <= n,
            out@.len() == i,
            forall|j: int| 0 <= j < i ==> out@[j] == ' ',
        decreases n - i,
    {
        out.push(' ');
        i = i + 1;
    }
    proof {
        assert(out@ =~= Seq::new(n as nat, |i: int| ' '));
    }
    out
}

/// `parts` joined by the single-character separator `sep`.
fn join_parts(parts: &Vec<String>, sep: char) -> (r: String)
    ensures
        r@ == spec_join(crate::parser::strs(parts@), seq![sep]),
{
    let ghost ps = crate::parser::strs(parts@);
    let mut out: Vec<char> = Vec::new();
    let mut i: usize = 0;
    while i < parts.len()
        invariant
            i <= parts@.len(),
            ps == crate::parser::strs(parts@),
            ps.len() == parts@.len(),
            out@ == spec_join(ps.subrange(0, i as int), seq![sep]),
        decreases parts@.len() - i,
    {
        let ghost pre = ps.subrange(0, i as int);
        if i > 0 {
            out.push(sep);
        }
        let mut pc = str_chars(parts[i].as_str());
        out.append(&mut pc);
        proof {
            let nxt = ps.subrange(0, i as int + 1);
            assert(nxt.drop_last() =~= pre);
            assert(nxt.last() == ps[i as int]);
            assert(ps[i as int] == parts@[i as int]@);
            if i == 0 {
                assert(out@ =~= nxt[0]);
            } else {
                assert(out@ =~= spec_join(pre, seq![sep]) + seq![sep] + ps[i as int]);
            }
        }
        i = i + 1;
    }
    proof {
        assert(ps.subrange(0, ps.len() as int) =~= ps);
    }
    chars_string(&out)
}

/// The keys of an entry list.
pub open spec fn kseq(o: Seq<(Seq<char>, ValueModel)>) -> Seq<Seq<char>> {
    o.map_values(|p: (Seq<char>, ValueModel)| p.0)
}

/// A lookup succeeds exactly when the key occurs.
pub proof fn lemma_obj_get_some_iff(o: Seq<(Seq<char>, ValueModel)>, key: Seq<char>)
    ensures
        (spec_obj_get(o, key) is Some) <==> kseq(o).contains(key),
    decreases o.len(),
{
    if o.len() == 0 {
    } else if o[0].0 == key {
        assert(kseq(o)[0] == key);
    } else {
        lemma_obj_get_some_iff(o.drop_first(), key);
        assert(kseq(o.drop_first()) =~= kseq(o).drop_first());
        if kseq(o).contains(key) {
            let i = choose|i: int| 0 <= i < kseq(o).len() && kseq(o)[i] == key;
            assert(i != 0);
            assert(kseq(o).drop_first()[i - 1] == key);
        }
        if kseq(o).drop_first().contains(key) {
            let i = choose|i: int|
                0 <= i < kseq(o).drop_first().len() && kseq(o).drop_first()[i] == key;
            assert(kseq(o)[i + 1] == key);
        }
    }
}

/// Whether every key of `a` also occurs in `b`.
fn keys_subset(a: &Vec<(String, Value)>, b: &Vec<(String, Value)>) -> (r: bool)
    ensures
        r == forall|j: int|
            0 <= j < deep_entries(a@).len() ==> kseq(deep_entries(b@)).contains(
                #[trigger] kseq(deep_entries(a@))[j],
            ),
{
    let ghost da = deep_entries(a@);
    let ghost db = deep_entries(b@);
    proof {
        crate::value::lemma_deep_entries(a@);
    }
    let mut j: usize = 0;
    while j < a.len()
        invariant
            j <= a@.len(),
            da == deep_entries(a@),
            db == deep_entries(b@),
            da.len() == a@.len(),
            forall|i: int| 0 <= i < a@.len() ==> da[i] == ((#[trigger] a@[i]).0@, a@[i].1.deep()),
            forall|i: int| 0 <= i < j ==> kseq(db).contains(#[trigger] kseq(da)[i]),
        decreases a@.len() - j,
    {
        proof {
            lemma_obj_get_some_iff(db, a@[j as int].0@);
            assert(kseq(da)[j as int] == da[j as int].0);
        }
        match crate::value::obj_get(b, &a[j].0) {
            Some(_) => {},
            None => {
                return false;
            },
        }
        j = j + 1;
    }
    true
}

// ---------------------------------------------------------------
// the encoder object
// ---------------------------------------------------------------
/// The NEON encoder: options and the statistics of the last call.
pub struct NeonEncoder {
    pub options: NeonEncodeOptions,
    pub stats: NeonStats,
}

impl NeonEncoder {
    /// An encoder with the given options, or the defaults.
    pub fn new(options: Option<NeonEncodeOptions>) -> (r: Self)
        ensures
            match options {
                Some(o) => r.options == o,
                None => crate::types::spec_enc_defaults(r.options),
            },
    {
        let opts = match options {
            Some(o) => o,
            None => Default::default(),
        };
        NeonEncoder { options: opts, stats: Default::default() }
    }

    /// The statistics of the last encode call.
    pub fn get_stats(&self) -> (r: &NeonStats)
        ensures
            *r == self.stats,
    {
        &self.stats
    }

    /// Encodes a well-formed value at the root level.  The call
    /// always succeeds and its text is exactly [`spec_enc_value`] of
    /// the value's model.  The statistics record the output's byte
    /// size and its four-bytes-per-token estimate; the JSON-side
    /// sizes belong to the boundary and stay zero.
    pub fn encode(&mut self, value: &Value) -> (res: Result<String, NeonError>)
        requires
            value.wf(),
        ensures
            final(self).options == old(self).options,
            ({
                let st = final(self).stats;
                res matches Ok(t) && t@ == spec_enc_value(value.deep(), old(self).options, 0)
                    && st.output_size == vstd::utf8::encode_utf8(t@).len() as usize
                    && st.output_tokens == st.output_size / 4 && st.input_size == 0
                    && st.input_tokens == 0 && st.savings_percent == 0
            }),
    {
        let result = match self.encode_value(value, 0) {
            Ok(s) => s,
            Err(e) => {
                proof {
                    assert(false);
                }
                return Err(e);
            },
        };
        let rs = result.as_str();
        let osize = rs.len();
        proof {
            assert(rs.spec_bytes() == vstd::utf8::encode_utf8(result@));
        }
        self.stats = NeonStats {
            input_size: 0,
            output_size: osize,
            savings_percent: 0,
            input_tokens: 0,
            output_tokens: osize / 4,
        };
        Ok(result)
    }

    /// Whether the array is tabular: non-empty, all objects, every
    /// key set equal to the first row's.
    pub fn is_tabular(&self, arr: &Vec<Value>) -> (r: bool)
        ensures
            r == spec_is_tabular(deep_seq(arr@)),
    {
        let ghost a = deep_seq(arr@);
        proof {
            crate::value::lemma_deep_seq(arr@);
        }
        if arr.len() == 0 {
            return false;
        }
        let first: &Vec<(String, Value)> = match &arr[0] {
            Value::Object(o) => o,
            _ => {
                return false;
            },
        };
        let mut i: usize = 0;
        while i < arr.len()
            invariant
                i <= arr@.len(),
                a == deep_seq(arr@),
                a.len() == arr@.len(),
                arr@.len() > 0,
                forall|k: int| 0 <= k < arr@.len() ==> a[k] == (#[trigger] arr@[k]).deep(),
                arr@[0] matches Value::Object(o) && deep_entries(o@) == a[0]->Obj_0,
                a[0] is Obj,
                *first == arr@[0]->Object_0,
                forall|k: int|
                    0 <= k < i ==> (#[trigger] a[k]) is Obj && keys_of(a[k]).to_set() == keys_of(
                        a[0],
                    ).to_set(),
            decreases arr@.len() - i,
        {
            let oi: &Vec<(String, Value)> = match &arr[i] {
                Value::Object(o) => o,
                _ => {
                    return false;
                },
            };
            let fwd = keys_subset(oi, first);
            let bwd = keys_subset(first, oi);
            if !(fwd && bwd) {
                proof {
                    assert(kseq(deep_entries(oi@)) =~= keys_of(a[i as int]));
                    assert(kseq(deep_entries(first@)) =~= keys_of(a[0]));
                    if keys_of(a[i as int]).to_set() == keys_of(a[0]).to_set() {
                        assert forall|j: int|
                            0 <= j < keys_of(a[i as int]).len() implies keys_of(a[0]).contains(
                            #[trigger] keys_of(a[i as int])[j],
                        ) by {
                            assert(keys_of(a[i as int]).to_set().contains(keys_of(a[i as int])[j]));
                        }
                        assert forall|j: int|
                            0 <= j < keys_of(a[0]).len() implies keys_of(a[i as int]).contains(
                            #[trigger] keys_of(a[0])[j],
                        ) by {
                            assert(keys_of(a[0]).to_set().contains(keys_of(a[0])[j]));
                        }
                    }
                }
                return false;
            }
            proof {
                assert(kseq(deep_entries(oi@)) =~= keys_of(a[i as int]));
                assert(kseq(deep_entries(first@)) =~= keys_of(a[0]));
                assert(keys_of(a[i as int]).to_set() =~= keys_of(a[0]).to_set()) by {
                    assert forall|k: Seq<char>|
                        keys_of(a[i as int]).to_set().contains(k) implies keys_of(
                        a[0],
                    ).to_set().contains(k) by {
                        let j = choose|j: int|
                            0 <= j < keys_of(a[i as int]).len() && keys_of(a[i as int])[j] == k;
                        assert(kseq(deep_entries(oi@))[j] == k);
                    }
                    assert forall|k: Seq<char>|
                        keys_of(a[0]).to_set().contains(k) implies keys_of(
                        a[i as int],
                    ).to_set().contains(k) by {
                        let j = choose|j: int| 0 <= j < keys_of(a[0]).len() && keys_of(a[0])[j] == k;
                        assert(kseq(deep_entries(first@))[j] == k);
                    }
                }
            }
            i = i + 1;
        }
        true
    }

    /// The text of the string value `s`.
    pub fn encode_string(&self, s: &str) -> (r: String)
        ensures
            r@ == spec_enc_string(s@, self.options),
    {
        if s.unicode_len() == 0 {
            let q = String::from_str("\"\"");
            proof {
                reveal_strlit("\"\"");
                assert(q@ =~= seq!['"', '"']);
            }
            return q;
        }
        if needs_quotes(s, self.options.delimiter) {
            let e = escape_string(s);
            let mut rv: Vec<char> = Vec::new();
            rv.push('"');
            let mut ec = str_chars(e.as_str());
            rv.append(&mut ec);
            rv.push('"');
            proof {
                assert(rv@ =~= seq!['"'] + spec_escape(s@) + seq!['"']);
            }
            chars_string(&rv)
        } else {
            let cs = str_chars(s);
            let mapped = map_space(&cs);
            chars_string(&mapped)
        }
    }

    /// The text of the object key `key`.
    pub fn encode_key(&self, key: &str) -> (r: String)
        ensures
            r@ == spec_enc_key(key@, self.options),
    {
        if key.unicode_len() == 0 {
            let q = String::from_str("\"\"");
            proof {
                reveal_strlit("\"\"");
                assert(q@ =~= seq!['"', '"']);
            }
            return q;
        }
        let k2: String = if self.options.abbreviate_fields {
            let owned = key.to_owned();
            match lookup_table(&get_abbreviations(), &owned, Ghost(spec_abbreviations())) {
                Some(v) => v,
                None => key.to_owned(),
            }
        } else {
            key.to_owned()
        };
        let kc = str_chars(k2.as_str());
        if contains_char(&kc, ':') || contains_char(&kc, '"') || contains_char(&kc, '\\')
            || contains_char(&kc, '\n') {
            let e = escape_string(k2.as_str());
            let mut rv: Vec<char> = Vec::new();
            rv.push('"');
            let mut ec = str_chars(e.as_str());
            rv.append(&mut ec);
            rv.push('"');
            proof {
                assert(rv@ =~= seq!['"'] + spec_escape(k2@) + seq!['"']);
            }
            chars_string(&rv)
        } else {
            let mapped = map_space(&kc);
            chars_string(&mapped)
        }
    }

    /// The NEON text of `value` at nesting level `depth`.
    pub fn encode_value(&self, value: &Value, depth: usize) -> (res: Result<String, NeonError>)
        requires
            value.wf(),
        ensures
            res matches Ok(t) && t@ == spec_enc_value(value.deep(), self.options, depth as nat),
        decreases vm_size(value.deep()), 0nat, 2nat,
    {
        match value {
            Value::Null => {
                if self.options.compress_nulls {
                    let mut v: Vec<char> = Vec::new();
                    v.push('N');
                    proof {
                        assert(v@ =~= seq!['N']);
                    }
                    Ok(chars_string(&v))
                } else {
                    let t = String::from_str("null");
                    proof {
                        reveal_strlit("null");
                        assert(t@ =~= seq!['n', 'u', 'l', 'l']);
                    }
                    Ok(t)
                }
            },
            Value::Bool(b) => {
                if self.options.compress_booleans {
                    let mut v: Vec<char> = Vec::new();
                    if *b {
                        v.push('T');
                        proof {
                            assert(v@ =~= seq!['T']);
                        }
                    } else {
                        v.push('F');
                        proof {
                            assert(v@ =~= seq!['F']);
                        }
                    }
                    Ok(chars_string(&v))
                } else {
                    if *b {
                        let t = String::from_str("true");
                        proof {
                            reveal_strlit("true");
                            assert(t@ =~= seq!['t', 'r', 'u', 'e']);
                        }
                        Ok(t)
                    } else {
                        let t = String::from_str("false");
                        proof {
                            reveal_strlit("false");
                            assert(t@ =~= seq!['f', 'a', 'l', 's', 'e']);
                        }
                        Ok(t)
                    }
                }
            },
            Value::Num(n) => Ok(compress_number(n, self.options.compress_numbers)),
            Value::Str(s) => Ok(self.encode_string(s.as_str())),
            Value::Array(a) => self.encode_array(a, depth),
            Value::Object(o) => self.encode_object(o, depth),
        }
    }

    /// The text of an array, choosing its layout.
    pub fn encode_array(&self, arr: &Vec<Value>, depth: usize) -> (res: Result<String, NeonError>)
        requires
            crate::value::wf_seq(arr@),
        ensures
            res matches Ok(t) && t@ == spec_enc_array(deep_seq(arr@), self.options, depth as nat),
        decreases vms_size(deep_seq(arr@)), 1nat, 6nat,
    {
        let ghost a = deep_seq(arr@);
        proof {
            crate::value::lemma_deep_seq(arr@);
        }
        if arr.len() == 0 {
            let mut v: Vec<char> = Vec::new();
            v.push('#');
            v.push('0');
            proof {
                assert(v@ =~= seq!['#', '0']);
            }
            return Ok(chars_string(&v));
        }
        if self.is_tabular(arr) {
            return self.encode_tabular_array(arr, depth);
        }
        let mut all_prim = true;
        let mut i: usize = 0;
        while i < arr.len() && all_prim
            invariant
                i <= arr@.len(),
                a == deep_seq(arr@),
                a.len() == arr@.len(),
                forall|k: int| 0 <= k < arr@.len() ==> a[k] == (#[trigger] arr@[k]).deep(),
                all_prim ==> forall|k: int| 0 <= k < i ==> !spec_is_container(#[trigger] a[k]),
                !all_prim ==> exists|k: int| 0 <= k < a.len() && spec_is_container(#[trigger] a[k]),
            decreases arr@.len() - i,
        {
            match &arr[i] {
                Value::Array(_) => {
                    all_prim = false;
                },
                Value::Object(_) => {
                    all_prim = false;
                },
                _ => {},
            }
            i = i + 1;
        }
        if all_prim {
            self.encode_primitive_array(arr)
        } else {
            self.encode_list_array(arr, depth)
        }
    }

    /// The one-line text of a primitive array.
    pub fn encode_primitive_array(&self, arr: &Vec<Value>) -> (res: Result<String, NeonError>)
        requires
            crate::value::wf_seq(arr@),
        ensures
            res matches Ok(t) && t@ == seq!['#'] + spec_digits(deep_seq(arr@).len()) + seq![' ']
                + spec_join(spec_prim_parts(deep_seq(arr@), self.options), seq![self.options.delimiter]),
        decreases vms_size(deep_seq(arr@)), 1nat, 3nat,
    {
        let ghost a = deep_seq(arr@);
        proof {
            crate::value::lemma_deep_seq(arr@);
            crate::value::lemma_wf_seq(arr@);
        }
        let mut parts: Vec<String> = Vec::new();
        let mut i: usize = 0;
        while i < arr.len()
            invariant
                i <= arr@.len(),
                a == deep_seq(arr@),
                a.len() == arr@.len(),
                crate::value::wf_seq(arr@),
                forall|k: int| 0 <= k < arr@.len() ==> a[k] == (#[trigger] arr@[k]).deep(),
                forall|k: int| 0 <= k < arr@.len() ==> (#[trigger] arr@[k]).wf(),
                crate::parser::strs(parts@) == spec_prim_parts(a.subrange(0, i as int), self.options),
            decreases arr@.len() - i,
        {
            let ghost pre = a.subrange(0, i as int);
            proof {
                lemma_vms_elem(a, i as int);
            }
            let s = match self.encode_value(&arr[i], 0) {
                Ok(s) => s,
                Err(e) => {
                    return Err(e);
                },
            };
            let ghost pp = crate::parser::strs(parts@);
            parts.push(s);
            proof {
                let nxt = a.subrange(0, i as int + 1);
                assert(nxt.drop_last() =~= pre);
                assert(nxt.last() == a[i as int]);
                assert(crate::parser::strs(parts@) =~= pp.push(
                    spec_enc_value(a[i as int], self.options, 0),
                ));
            }
            i = i + 1;
        }
        proof {
            assert(a.subrange(0, a.len() as int) =~= a);
        }
        let joined = join_parts(&parts, self.options.delimiter);
        let mut out: Vec<char> = Vec::new();
        out.push('#');
        let mut dg = format_u128(arr.len() as u128);
        out.append(&mut dg);
        out.push(' ');
        let mut jc = str_chars(joined.as_str());
        out.append(&mut jc);
        proof {
            assert(out@ =~= seq!['#'] + spec_digits(a.len()) + seq![' '] + spec_join(
                spec_prim_parts(a, self.options),
                seq![self.options.delimiter],
            ));
        }
        Ok(chars_string(&out))
    }

    /// The `- value` lines of a list array.
    pub fn encode_list_array(&self, arr: &Vec<Value>, depth: usize) -> (res: Result<
        String,
        NeonError,
    >)
        requires
            crate::value::wf_seq(arr@),
        ensures
            res matches Ok(t) && t@ == seq!['#'] + spec_digits(deep_seq(arr@).len())
                + spec_list_tail(deep_seq(arr@), self.options, depth as nat),
        decreases vms_size(deep_seq(arr@)), 1nat, 3nat,
    {
        let ghost a = deep_seq(arr@);
        proof {
            crate::value::lemma_deep_seq(arr@);
            crate::value::lemma_wf_seq(arr@);
            lemma_sat_indent(self.options.indent as nat, depth as nat);
        }
        let ind = sat_mul(self.options.indent, sat_inc(depth));
        let mut out: Vec<char> = Vec::new();
        out.push('#');
        let mut dg = format_u128(arr.len() as u128);
        out.append(&mut dg);
        proof {
            assert(out@ =~= seq!['#'] + spec_digits(a.len()) + spec_list_tail(
                a.subrange(0, 0),
                self.options,
                depth as nat,
            ));
        }
        let mut i: usize = 0;
        while i < arr.len()
            invariant
                i <= arr@.len(),
                a == deep_seq(arr@),
                a.len() == arr@.len(),
                crate::value::wf_seq(arr@),
                ind == spec_sat_mul(self.options.indent as nat, (depth + 1) as nat),
                forall|k: int| 0 <= k < arr@.len() ==> a[k] == (#[trigger] arr@[k]).deep(),
                forall|k: int| 0 <= k < arr@.len() ==> (#[trigger] arr@[k]).wf(),
                out@ == seq!['#'] + spec_digits(a.len()) + spec_list_tail(
                    a.subrange(0, i as int),
                    self.options,
                    depth as nat,
                ),
            decreases arr@.len() - i,
        {
            let ghost pre = a.subrange(0, i as int);
            proof {
                lemma_vms_elem(a, i as int);
            }
            let s = match self.encode_value(&arr[i], sat_inc(depth)) {
                Ok(s) => s,
                Err(e) => {
                    return Err(e);
                },
            };
            let mut lc = str_chars(self.options.line_ending.as_str());
            out.append(&mut lc);
            let mut sp = spaces(ind);
            out.append(&mut sp);
            out.push('-');
            out.push(' ');
            let mut sc = str_chars(s.as_str());
            out.append(&mut sc);
            proof {
                let nxt = a.subrange(0, i as int + 1);
                assert(nxt.drop_last() =~= pre);
                assert(nxt.last() == a[i as int]);
                assert(spec_indent(self.options, (depth + 1) as nat) =~= Seq::new(
                    ind as nat,
                    |k: int| ' ',
                ));
                assert(out@ =~= seq!['#'] + spec_digits(a.len()) + spec_list_tail(
                    nxt,
                    self.options,
                    depth as nat,
                ));
            }
            i = i + 1;
        }
        proof {
            assert(a.subrange(0, a.len() as int) =~= a);
        }
        Ok(chars_string(&out))
    }

    /// The header-and-rows text of a tabular array.
    #[verifier::rlimit(100)]
    pub fn encode_tabular_array(&self, arr: &Vec<Value>, depth: usize) -> (res: Result<
        String,
        NeonError,
    >)
        requires
            crate::value::wf_seq(arr@),
            spec_is_tabular(deep_seq(arr@)),
        ensures
            res matches Ok(t) && t@ == spec_enc_tabular(deep_seq(arr@), self.options, depth as nat),
        decreases vms_size(deep_seq(arr@)), 1nat, 5nat,
    {
        let ghost a = deep_seq(arr@);
        proof {
            crate::value::lemma_deep_seq(arr@);
            crate::value::lemma_wf_seq(arr@);
            lemma_sat_indent(self.options.indent as nat, depth as nat);
        }
        let first: &Vec<(String, Value)> = match &arr[0] {
            Value::Object(o) => o,
            _ => {
                proof {
                    assert(a[0] == arr@[0].deep());
                    assert(false);
                }
                return Err(NeonError::encode("not tabular"));
            },
        };
        let ghost fieldsm = keys_of(a[0]);
        proof {
            assert(a[0] == arr@[0].deep());
            crate::value::lemma_deep_entries(first@);
            assert(fieldsm =~= deep_entries(first@).map_values(
                |p: (Seq<char>, ValueModel)| p.0,
            ));
        }
        let mut fields: Vec<String> = Vec::new();
        let mut fi: usize = 0;
        while fi < first.len()
            invariant
                fi <= first@.len(),
                fieldsm.len() == first@.len(),
                forall|k: int|
                    0 <= k < first@.len() ==> fieldsm[k] == (#[trigger] first@[k]).0@,
                crate::parser::strs(fields@).len() == fi,
                forall|k: int|
                    0 <= k < fi ==> crate::parser::strs(fields@)[k] == (#[trigger] first@[k]).0@,
            decreases first@.len() - fi,
        {
            fields.push(first[fi].0.clone());
            fi = fi + 1;
        }
        proof {
            assert(crate::parser::strs(fields@).len() == fieldsm.len());
            assert forall|k: int|
                0 <= k < fieldsm.len() implies crate::parser::strs(fields@)[k] == fieldsm[k] by {
                assert(crate::parser::strs(fields@)[k] == first@[k].0@);
                assert(fieldsm[k] == first@[k].0@);
            }
            assert(crate::parser::strs(fields@) =~= fieldsm);
        }
        let mut sparts: Vec<String> = Vec::new();
        let mut si: usize = 0;
        while si < fields.len()
            invariant
                si <= fields@.len(),
                crate::parser::strs(fields@) == fieldsm,
                fields@.len() == fieldsm.len(),
                crate::parser::strs(sparts@) == spec_schema_fields(
                    fieldsm.subrange(0, si as int),
                    self.options,
                ),
            decreases fields@.len() - si,
        {
            let ghost pre = fieldsm.subrange(0, si as int);
            let f: String = if self.options.abbreviate_fields {
                match lookup_table(&get_abbreviations(), &fields[si], Ghost(spec_abbreviations())) {
                    Some(v) => v,
                    None => fields[si].clone(),
                }
            } else {
                fields[si].clone()
            };
            let ghost sp = crate::parser::strs(sparts@);
            proof {
                assert(fields@[si as int]@ == fieldsm[si as int]);
            }
            sparts.push(f);
            proof {
                let nxt = fieldsm.subrange(0, si as int + 1);
                assert(nxt.drop_last() =~= pre);
                assert(nxt.last() == fieldsm[si as int]);
                assert(crate::parser::strs(sparts@) =~= sp.push(
                    spec_schema_field(fieldsm[si as int], self.options),
                ));
            }
            si = si + 1;
        }
        proof {
            assert(fieldsm.subrange(0, fieldsm.len() as int) =~= fieldsm);
        }
        let schema = join_parts(&sparts, ',');
        let mut out: Vec<char> = Vec::new();
        out.push('#');
        let mut dg = format_u128(arr.len() as u128);
        out.append(&mut dg);
        out.push('^');
        let mut sc = str_chars(schema.as_str());
        out.append(&mut sc);
        proof {
            assert(out@ =~= spec_tab_header(a, self.options));
            assert(out@ =~= spec_tab_header(a, self.options) + spec_tab_body(
                a.subrange(0, 0),
                fieldsm,
                self.options,
                depth as nat,
                spec_indent(self.options, (depth + 1) as nat),
            ));
        }
        let ind = sat_mul(self.options.indent, sat_inc(depth));
        let mut i: usize = 0;
        while i < arr.len()
            invariant
                i <= arr@.len(),
                a == deep_seq(arr@),
                a.len() == arr@.len(),
                crate::value::wf_seq(arr@),
                spec_is_tabular(a),
                crate::parser::strs(fields@) == fieldsm,
                fields@.len() == fieldsm.len(),
                ind == spec_sat_mul(self.options.indent as nat, (depth + 1) as nat),
                forall|k: int| 0 <= k < arr@.len() ==> a[k] == (#[trigger] arr@[k]).deep(),
                forall|k: int| 0 <= k < arr@.len() ==> (#[trigger] arr@[k]).wf(),
                out@ == spec_tab_header(a, self.options) + spec_tab_body(
                    a.subrange(0, i as int),
                    fieldsm,
                    self.options,
                    depth as nat,
                    spec_indent(self.options, (depth + 1) as nat),
                ),
            decreases arr@.len() - i,
        {
            let ghost pre = a.subrange(0, i as int);
            match &arr[i] {
                Value::Object(oi) => {
                    let ghost om = deep_entries(oi@);
                    proof {
                        assert(a[i as int] == arr@[i as int].deep());
                        crate::value::lemma_wf_entries(oi@);
                        lemma_vms_elem(a, i as int);
                        assert(vm_size(a[i as int]) == 1 + vmo_size(om));
                    }
                    let mut cells: Vec<String> = Vec::new();
                    let mut cf: usize = 0;
                    while cf < fields.len()
                        invariant
                            cf <= fields@.len(),
                            crate::parser::strs(fields@) == fieldsm,
                            fields@.len() == fieldsm.len(),
                            om == deep_entries(oi@),
                            forall|k: int|
                                0 <= k < oi@.len() ==> (#[trigger] oi@[k]).1.wf(),
                            vmo_size(om) < vms_size(a),
                            a == deep_seq(arr@),
                            crate::parser::strs(cells@) == spec_tab_row(
                                om,
                                fieldsm.subrange(0, cf as int),
                                self.options,
                                depth as nat,
                            ),
                        decreases fields@.len() - cf,
                    {
                        let ghost rpre = fieldsm.subrange(0, cf as int);
                        proof {
                            assert(fields@[cf as int]@ == fieldsm[cf as int]);
                            lemma_obj_get_size(om, fieldsm[cf as int]);
                        }
                        let ghost cp = crate::parser::strs(cells@);
                        match crate::value::obj_get(oi, &fields[cf]) {
                            Some(v) => {
                                proof {
                                    let k = choose|k: int|
                                        0 <= k < oi@.len() && *v == (#[trigger] oi@[k]).1;
                                    assert(oi@[k].1.wf());
                                }
                                match self.encode_value(v, sat_inc(depth)) {
                                    Ok(s) => {
                                        cells.push(s);
                                    },
                                    Err(e) => {
                                        return Err(e);
                                    },
                                }
                            },
                            None => {
                                cells.push(String::new());
                            },
                        }
                        proof {
                            let nxt = fieldsm.subrange(0, cf as int + 1);
                            assert(nxt.drop_last() =~= rpre);
                            assert(nxt.last() == fieldsm[cf as int]);
                            assert(crate::parser::strs(cells@) =~= cp.push(
                                match spec_obj_get(om, fieldsm[cf as int]) {
                                    Some(v) => spec_enc_value(
                                        v,
                                        self.options,
                                        spec_sat_inc(depth as nat),
                                    ),
                                    None => Seq::<char>::empty(),
                                },
                            ));
                        }
                        cf = cf + 1;
                    }
                    proof {
                        assert(fieldsm.subrange(0, fieldsm.len() as int) =~= fieldsm);
                    }
                    let rowj = join_parts(&cells, self.options.delimiter);
                    let mut lc = str_chars(self.options.line_ending.as_str());
                    out.append(&mut lc);
                    let mut sp2 = spaces(ind);
                    out.append(&mut sp2);
                    let mut rc = str_chars(rowj.as_str());
                    out.append(&mut rc);
                    proof {
                        let nxt = a.subrange(0, i as int + 1);
                        assert(nxt.drop_last() =~= pre);
                        assert(nxt.last() == a[i as int]);
                        assert(spec_indent(self.options, (depth + 1) as nat) =~= Seq::new(
                            ind as nat,
                            |k: int| ' ',
                        ));
                        assert(out@ =~= spec_tab_header(a, self.options) + spec_tab_body(
                            nxt,
                            fieldsm,
                            self.options,
                            depth as nat,
                            spec_indent(self.options, (depth + 1) as nat),
                        ));
                    }
                },
                _ => {
                    proof {
                        assert(a[i as int] == arr@[i as int].deep());
                        assert(a[i as int] is Obj);
                        assert(false);
                    }
                },
            }
            i = i + 1;
        }
        proof {
            assert(a.subrange(0, a.len() as int) =~= a);
        }
        Ok(chars_string(&out))
    }

    /// The text of an object.
    #[verifier::rlimit(100)]
    pub fn encode_object(&self, obj: &Vec<(String, Value)>, depth: usize) -> (res: Result<
        String,
        NeonError,
    >)
        requires
            crate::value::wf_entries(obj@),
        ensures
            res matches Ok(t) && t@ == spec_enc_object(
                deep_entries(obj@),
                self.options,
                depth as nat,
            ),
        decreases vmo_size(deep_entries(obj@)), 2nat, 4nat,
    {
        let ghost o = deep_entries(obj@);
        proof {
            crate::value::lemma_deep_entries(obj@);
            crate::value::lemma_wf_entries(obj@);
        }
        if obj.len() == 0 {
            let mut v: Vec<char> = Vec::new();
            v.push('@');
            proof {
                assert(v@ =~= seq!['@']);
            }
            return Ok(chars_string(&v));
        }
        if depth == 0 && obj.len() == 1 {
            let is_tab_arr = match &obj[0].1 {
                Value::Array(arr) => self.is_tabular(arr),
                _ => false,
            };
            if is_tab_arr {
                match &obj[0].1 {
                    Value::Array(arr) => {
                        proof {
                            assert(o[0] == (obj@[0].0@, obj@[0].1.deep()));
                            assert(o[0].1 is Arr && o[0].1->Arr_0 == deep_seq(arr@));
                            lemma_vmo_elem(o, 0);
                            assert(vm_size(o[0].1) == 1 + vms_size(deep_seq(arr@)));
                            assert(obj@[0].1.wf());
                        }
                        let tab = match self.encode_tabular_array(arr, 0) {
                            Ok(t) => t,
                            Err(e) => {
                                return Err(e);
                            },
                        };
                        let mut out: Vec<char> = Vec::new();
                        let mut kc = str_chars(obj[0].0.as_str());
                        out.append(&mut kc);
                        let mut tc = str_chars(tab.as_str());
                        out.append(&mut tc);
                        proof {
                            let a2 = o[0].1->Arr_0;
                            assert(tab@ == spec_tab_header(a2, self.options) + spec_tab_body(
                                a2,
                                keys_of(a2[0]),
                                self.options,
                                0,
                                spec_indent(self.options, 1),
                            ));
                            assert(out@ =~= o[0].0 + spec_tab_header(a2, self.options)
                                + spec_tab_body(
                                a2,
                                keys_of(a2[0]),
                                self.options,
                                0,
                                spec_indent(self.options, 1),
                            ));
                        }
                        return Ok(chars_string(&out));
                    },
                    _ => {
                        proof {
                            assert(false);
                        }
                    },
                }
            }
        }
        let mut parts: Vec<String> = Vec::new();
        let mut i: usize = 0;
        while i < obj.len()
            invariant
                i <= obj@.len(),
                o == deep_entries(obj@),
                o.len() == obj@.len(),
                crate::value::wf_entries(obj@),
                forall|k: int|
                    0 <= k < obj@.len() ==> o[k] == ((#[trigger] obj@[k]).0@, obj@[k].1.deep()),
                forall|k: int| 0 <= k < obj@.len() ==> (#[trigger] obj@[k]).1.wf(),
                crate::parser::strs(parts@) == spec_obj_parts(
                    o.subrange(0, i as int),
                    self.options,
                    depth as nat,
                ),
            decreases obj@.len() - i,
        {
            let ghost pre = o.subrange(0, i as int);
            let ek = self.encode_key(obj[i].0.as_str());
            proof {
                lemma_vmo_elem(o, i as int);
            }
            let part: String = match &obj[i].1 {
                Value::Object(nested) => {
                    if nested.len() > 0 {
                        proof {
                            assert(o[i as int].1 is Obj && o[i as int].1->Obj_0 == deep_entries(
                                nested@,
                            ));
                            assert(vm_size(o[i as int].1) == 1 + vmo_size(deep_entries(nested@)));
                            assert(obj@[i as int].1.wf());
                        }
                        let ns = match self.encode_object(nested, sat_inc(depth)) {
                            Ok(t) => t,
                            Err(e) => {
                                return Err(e);
                            },
                        };
                        proof {
                            let no = deep_entries(nested@);
                            assert(no.len() > 0);
                            assert(spec_sat_inc(depth as nat) > 0);
                            assert(ns@ == seq!['@'] + spec_join(
                                spec_obj_parts(no, self.options, spec_sat_inc(depth as nat)),
                                seq![' '],
                            ));
                            assert(ns@.len() >= 1 && ns@[0] == '@');
                        }
                        let nsc = str_chars(ns.as_str());
                        let body = subvec(&nsc, 1, nsc.len());
                        let mut pv: Vec<char> = Vec::new();
                        let mut ekc = str_chars(ek.as_str());
                        pv.append(&mut ekc);
                        pv.push(':');
                        pv.push('{');
                        let mut bc = body;
                        pv.append(&mut bc);
                        pv.push('}');
                        proof {
                            assert(nsc@.subrange(1, nsc@.len() as int) =~= ns@.drop_first());
                            assert(pv@ =~= spec_enc_key(obj@[i as int].0@, self.options) + seq![
                                ':',
                                '{',
                            ] + spec_enc_object(
                                deep_entries(nested@),
                                self.options,
                                spec_sat_inc(depth as nat),
                            ).drop_first() + seq!['}']);
                        }
                        chars_string(&pv)
                    } else {
                        let vs = match self.encode_value(&obj[i].1, depth) {
                            Ok(t) => t,
                            Err(e) => {
                                return Err(e);
                            },
                        };
                        let mut pv: Vec<char> = Vec::new();
                        let mut ekc = str_chars(ek.as_str());
                        pv.append(&mut ekc);
                        pv.push(':');
                        let mut vc = str_chars(vs.as_str());
                        pv.append(&mut vc);
                        proof {
                            assert(pv@ =~= spec_enc_key(obj@[i as int].0@, self.options)
                                + seq![':'] + spec_enc_value(
                                o[i as int].1,
                                self.options,
                                depth as nat,
                            ));
                        }
                        chars_string(&pv)
                    }
                },
                Value::Array(arr2) => {
                    proof {
                        assert(o[i as int].1 is Arr && o[i as int].1->Arr_0 == deep_seq(arr2@));
                        assert(vm_size(o[i as int].1) == 1 + vms_size(deep_seq(arr2@)));
                        assert(obj@[i as int].1.wf());
                    }
                    let asx = match self.encode_array(arr2, sat_inc(depth)) {
                        Ok(t) => t,
                        Err(e) => {
                            return Err(e);
                        },
                    };
                    let mut pv: Vec<char> = Vec::new();
                    let mut ekc = str_chars(ek.as_str());
                    pv.append(&mut ekc);
                    let mut ac = str_chars(asx.as_str());
                    pv.append(&mut ac);
                    proof {
                        assert(pv@ =~= spec_enc_key(obj@[i as int].0@, self.options)
                            + spec_enc_array(
                            deep_seq(arr2@),
                            self.options,
                            spec_sat_inc(depth as nat),
                        ));
                    }
                    chars_string(&pv)
                },
                _ => {
                    let vs = match self.encode_value(&obj[i].1, depth) {
                        Ok(t) => t,
                        Err(e) => {
                            return Err(e);
                        },
                    };
                    let mut pv: Vec<char> = Vec::new();
                    let mut ekc = str_chars(ek.as_str());
                    pv.append(&mut ekc);
                    pv.push(':');
                    let mut vc = str_chars(vs.as_str());
                    pv.append(&mut vc);
                    proof {
                        assert(pv@ =~= spec_enc_key(obj@[i as int].0@, self.options) + seq![':']
                            + spec_enc_value(o[i as int].1, self.options, depth as nat));
                    }
                    chars_string(&pv)
                },
            };
            let ghost pp = crate::parser::strs(parts@);
            parts.push(part);
            proof {
                let nxt = o.subrange(0, i as int + 1);
                assert(nxt.drop_last() =~= pre);
                assert(nxt.last() == o[i as int]);
                assert(crate::parser::strs(parts@) =~= pp.push(
                    spec_obj_part(o[i as int], self.options, depth as nat),
                ));
            }
            i = i + 1;
        }
        proof {
            assert(o.subrange(0, o.len() as int) =~= o);
        }
        let joined = join_parts(&parts, ' ');
        let mut out: Vec<char> = Vec::new();
        out.push('@');
        let mut jc = str_chars(joined.as_str());
        out.append(&mut jc);
        proof {
            assert(out@ =~= seq!['@'] + spec_join(
                spec_obj_parts(o, self.options, depth as nat),
                seq![' '],
            ));
        }
        Ok(chars_string(&out))
    }
}

/// Indentation is the same whether the level is saturated before or
/// after adding one.
proof fn lemma_sat_indent(a: nat, d: nat)
    ensures
        spec_sat_mul(a, spec_sat_inc(d)) == spec_sat_mul(a, d + 1),
{
    if d + 1 > usize::MAX {
        if a == 0 {
            vstd::arithmetic::mul::lemma_mul_basics(d as int);
            vstd::arithmetic::mul::lemma_mul_basics(d as int + 1);
        } else {
            vstd::arithmetic::mul::lemma_mul_inequality(1, a as int, d as int);
            vstd::arithmetic::mul::lemma_mul_inequality(1, a as int, d as int + 1);
            vstd::arithmetic::mul::lemma_mul_basics(d as int);
            vstd::arithmetic::mul::lemma_mul_basics(d as int + 1);
            assert(a * d >= d);
            assert(a * (d + 1) >= d + 1);
        }
    }
}

/// The options that [`encode_compact`] uses: the defaults with every
/// literal compression and field abbreviation on.
pub open spec fn spec_compact_opts(o: NeonEncodeOptions) -> bool {
    &&& o.compress_numbers
    &&& o.compress_booleans
    &&& o.compress_nulls
    &&& o.compress_strings
    &&& o.abbreviate_fields
    &&& o.mode == crate::types::EncodeMode::Compact
    &&& o.delimiter == ' '
    &&& o.line_ending@ == seq!['\n']
    &&& o.indent == 2
    &&& !o.enable_references
    &&& o.max_inline_array == 10
}

/// Encodes a well-formed value to NEON text with the given options,
/// or the defaults.  The call always succeeds.
pub fn encode(value: &Value, options: Option<NeonEncodeOptions>) -> (res: Result<String, NeonError>)
    requires
        value.wf(),
    ensures
        exists|o: NeonEncodeOptions|
            {
                &&& (match options {
                    Some(oo) => o == oo,
                    None => crate::types::spec_enc_defaults(o),
                })
                &&& (res matches Ok(t) && t@ == #[trigger] spec_enc_value(value.deep(), o, 0))
            },
{
    let mut encoder = NeonEncoder::new(options);
    let ghost o = encoder.options;
    let r = encoder.encode(value);
    proof {
        assert((match options {
            Some(oo) => o == oo,
            None => crate::types::spec_enc_defaults(o),
        }));
    }
    r
}

/// Encodes with maximum compression: every literal compression and
/// field abbreviation on.
pub fn encode_compact(value: &Value) -> (res: Result<String, NeonError>)
    requires
        value.wf(),
    ensures
        exists|o: NeonEncodeOptions|
            spec_compact_opts(o) && (res matches Ok(t) && t@ == #[trigger] spec_enc_value(
                value.deep(),
                o,
                0,
            )),
{
    let mut options: NeonEncodeOptions = Default::default();
    options.compress_numbers = true;
    options.compress_booleans = true;
    options.compress_nulls = true;
    options.abbreviate_fields = true;
    let ghost o = options;
    let r = encode(value, Some(options));
    proof {
        assert(spec_compact_opts(o));
    }
    r
}

} // verus!
