//! The properties the library promises, stated and proved over the models
//! its contracts use.

use vstd::prelude::*;

use crate::deserializer::{
    empty_slots, field_index, spec_decode, spec_decode_elems, spec_decode_entries,
    spec_decode_struct, spec_from_str, zip_fields,
};
use crate::error::ErrorKind;
use crate::kv::{KeyValueModel, ValueModel};
use crate::parser::{
    base_marker, concat_toks, cons_tok, quote_pos, spec_parse_input, spec_parse_items,
    spec_parse_kv, spec_parse_section, spec_tokenize, TokenModel,
};
use crate::deserializer::{pow2, spec_sort_kvs, insert_sorted};
use crate::serializer::{
    close_brace, ends_nl, entry_nl, indent_len, key_string, line_closes, line_opens, nl_pos,
    open_brace, quoted, spec_flat, spec_flat_elems, spec_flat_entries, spec_flat_fields,
    spec_join, spec_lines, spec_pretty_lines, spec_prettify, spec_repeat, strip_cr,
    strip_indent,
};
use crate::text::{
    all_digits, dec_digits, dec_int, digit_char, digit_val, digits_val, is_digit, lex_le,
    spec_parse_i64, spec_parse_u64,
};
use crate::shape::{ShapeModel, TypedModel};

verus! {

broadcast use vstd::std_specs::vec::group_vec_axioms, vstd::seq::group_seq_axioms;

/// Whether a text is free of quote characters.
pub open spec fn quote_free(s: Seq<char>) -> bool {
    forall|i: int| 0 <= i < s.len() ==> s[i] != '"'
}

/// Whether every key and every scalar of a tree is free of quote
/// characters.
pub open spec fn value_quote_free(v: ValueModel) -> bool
    decreases v,
{
    match v {
        ValueModel::Scalar(s) => quote_free(s),
        ValueModel::Section(kvs) => kvs_quote_free(kvs),
    }
}

/// Whether every key and every scalar under a child list is free of quote
/// characters.
pub open spec fn kvs_quote_free(kvs: Seq<KeyValueModel>) -> bool
    decreases kvs,
{
    if kvs.len() == 0 {
        true
    } else {
        quote_free(kvs[0].key) && value_quote_free(kvs[0].value) && kvs_quote_free(kvs.skip(1))
    }
}

/// The first quote of a text sits where `quote_pos` says, so everything
/// before it is quote-free.
proof fn lemma_quote_pos_prefix(s: Seq<char>, i: int)
    requires
        quote_pos(s) == Some(i),
    ensures
        0 <= i < s.len(),
        forall|k: int| 0 <= k < i ==> s[k] != '"',
    decreases s.len(),
{
    if s.len() > 0 && s[0] != '"' {
        match quote_pos(s.skip(1)) {
            Option::None => {},
            Option::Some(j) => {
                lemma_quote_pos_prefix(s.skip(1), j);
                assert forall|k: int| 0 <= k < i implies s[k] != '"' by {
                    if k > 0 {
                        assert(s.skip(1)[k - 1] == s[k]);
                    }
                }
            },
        }
    }
}

/// Every quoted token a tokenization produces is free of quote characters.
proof fn lemma_tokens_quote_free(s: Seq<char>, ts: Seq<TokenModel>)
    requires
        spec_tokenize(s) == Some(ts),
    ensures
        forall|i: int| 0 <= i < ts.len() ==> (#[trigger] ts[i] matches TokenModel::Quoted(c)
            ==> quote_free(c)),
    decreases s.len(),
{
    if s.len() == 0 {
    } else if crate::text::is_ws(s[0]) {
        lemma_tokens_quote_free(s.skip(1), ts);
    } else if s[0] == '{' || s[0] == '}' {
        match spec_tokenize(s.skip(1)) {
            Option::None => {},
            Option::Some(rest) => {
                lemma_tokens_quote_free(s.skip(1), rest);
                assert forall|i: int| 0 <= i < ts.len() implies (#[trigger] ts[i]
                    matches TokenModel::Quoted(c) ==> quote_free(c)) by {
                    if i > 0 {
                        assert(ts[i] == rest[i - 1]);
                    }
                }
            },
        }
    } else if s[0] == '"' {
        match quote_pos(s.skip(1)) {
            Option::None => {},
            Option::Some(i) => {
                lemma_quote_pos_prefix(s.skip(1), i);
                if 0 <= i && i + 2 <= s.len() {
                    match spec_tokenize(s.skip(i + 2)) {
                        Option::None => {},
                        Option::Some(rest) => {
                            lemma_tokens_quote_free(s.skip(i + 2), rest);
                            assert(quote_free(s.subrange(1, i + 1))) by {
                                assert forall|k: int| 0 <= k < i implies #[trigger] s.subrange(
                                    1,
                                    i + 1,
                                )[k] != '"' by {
                                    assert(s.skip(1)[k] == s.subrange(1, i + 1)[k]);
                                }
                                assert(s.subrange(1, i + 1).len() == i);
                            }
                            assert forall|j: int| 0 <= j < ts.len() implies (#[trigger] ts[j]
                                matches TokenModel::Quoted(c) ==> quote_free(c)) by {
                                if j > 0 {
                                    assert(ts[j] == rest[j - 1]);
                                }
                            }
                        },
                    }
                }
            },
        }
    } else if s.len() >= 5 && s.subrange(0, 5) == base_marker() {
        match spec_tokenize(s.skip(5)) {
            Option::None => {},
            Option::Some(rest) => {
                lemma_tokens_quote_free(s.skip(5), rest);
                assert forall|i: int| 0 <= i < ts.len() implies (#[trigger] ts[i]
                    matches TokenModel::Quoted(c) ==> quote_free(c)) by {
                    if i > 0 {
                        assert(ts[i] == rest[i - 1]);
                    }
                }
            },
        }
    }
}

/// Whether every quoted token of a stream is quote-free.
pub open spec fn toks_quote_free(ts: Seq<TokenModel>) -> bool {
    forall|i: int| 0 <= i < ts.len() ==> (#[trigger] ts[i] matches TokenModel::Quoted(c)
        ==> quote_free(c))
}

/// Trees parsed out of a quote-free token stream are quote-free.
proof fn lemma_parse_quote_free(ts: Seq<TokenModel>, i: int)
    requires
        toks_quote_free(ts),
    ensures
        spec_parse_kv(ts, i) matches Some(p) ==> quote_free(p.0.key) && value_quote_free(
            p.0.value,
        ),
        spec_parse_section(ts, i) matches Some(p) ==> kvs_quote_free(p.0),
        spec_parse_items(ts, i) matches Some(f) ==> kvs_quote_free(f.kvs),
    decreases ts.len() - i, 2int,
{
    if 0 <= i < ts.len() {
        if i + 1 < ts.len() {
            lemma_parse_quote_free(ts, i + 2);
        }
        crate::parser::lemma_parse_kv_progress(ts, i);
        match spec_parse_kv(ts, i) {
            Option::None => {},
            Option::Some((kv, j)) => {
                if i < j <= ts.len() {
                    lemma_parse_quote_free(ts, j);
                }
                assert(quote_free(kv.key) && value_quote_free(kv.value)) by {
                    assert(ts[i] matches TokenModel::Quoted(c) ==> quote_free(c));
                    if i + 1 < ts.len() {
                        assert(ts[i + 1] matches TokenModel::Quoted(c) ==> quote_free(c));
                    }
                }
                match spec_parse_section(ts, i) {
                    Option::None => {},
                    Option::Some((kvs, k)) => {
                        if !(ts[i] is Close) {
                            assert(kvs_quote_free(kvs)) by {
                                match spec_parse_section(ts, j) {
                                    Option::None => {},
                                    Option::Some((rest, _)) => {
                                        assert(kvs == seq![kv] + rest);
                                        assert(kvs_quote_free(rest));
                                        assert(kvs[0] == kv);
                                        assert(kvs.skip(1) =~= rest);
                                    },
                                }
                            }
                        }
                    },
                }
                match spec_parse_items(ts, i) {
                    Option::None => {},
                    Option::Some(f) => {
                        if !(ts[i] is Base) {
                            assert(kvs_quote_free(f.kvs)) by {
                                match spec_parse_items(ts, j) {
                                    Option::None => {},
                                    Option::Some(g) => {
                                        assert(f.kvs == seq![kv] + g.kvs);
                                        assert(kvs_quote_free(g.kvs));
                                        assert(f.kvs[0] == kv);
                                        assert(f.kvs.skip(1) =~= g.kvs);
                                    },
                                }
                            }
                        }
                    },
                }
            },
        }
        if ts[i] is Close {
            match spec_parse_section(ts, i) {
                Option::None => {},
                Option::Some((kvs, _)) => {
                    assert(kvs.len() == 0);
                },
            }
        }
        if ts[i] is Base {
            if i + 1 < ts.len() && ts[i + 1] is Quoted {
                lemma_parse_quote_free(ts, i + 2);
            }
        }
    }
}

/// The grammar boundary: no scalar and no key of a parsed tree ever holds
/// an unescaped quote character. A value text with an embedded quote can
/// only reparse as different tokens or fail; it never corrupts a scalar.
pub proof fn lemma_parsed_tree_quote_free(s: Seq<char>)
    ensures
        spec_parse_input(s) matches Some(f) ==> kvs_quote_free(f.kvs),
{
    match spec_tokenize(s) {
        Option::None => {},
        Option::Some(ts) => {
            lemma_tokens_quote_free(s, ts);
            lemma_parse_quote_free(ts, 0);
        },
    }
}

/// Decoding a section as a mapping with string keys yields one entry per
/// child, in source order, each key the child's key verbatim.
pub proof fn lemma_mapping_entries(vsh: ShapeModel, kvs: Seq<KeyValueModel>)
    ensures
        spec_decode_entries(ShapeModel::Mapping(Box::new(ShapeModel::Str), Box::new(vsh)), kvs)
            matches Ok(ps) ==> ps.len() == kvs.len() && forall|i: int| 0 <= i < ps.len()
            ==> #[trigger] ps[i].0 == TypedModel::Str(kvs[i].key),
    decreases kvs.len(),
{
    let sh = ShapeModel::Mapping(Box::new(ShapeModel::Str), Box::new(vsh));
    if kvs.len() > 0 {
        lemma_mapping_entries(vsh, kvs.skip(1));
        match spec_decode_entries(sh, kvs) {
            Result::<Seq<(TypedModel, TypedModel)>, ErrorKind>::Ok(ps) => {
                assert(spec_decode(ShapeModel::Str, ValueModel::Scalar(kvs[0].key))
                    == Ok::<TypedModel, ErrorKind>(TypedModel::Str(kvs[0].key)));
                match spec_decode_entries(sh, kvs.skip(1)) {
                    Result::<Seq<(TypedModel, TypedModel)>, ErrorKind>::Ok(rest) => {
                        assert(ps[0].0 == TypedModel::Str(kvs[0].key));
                        assert forall|i: int| 0 <= i < ps.len() implies #[trigger] ps[i].0
                            == TypedModel::Str(kvs[i].key) by {
                            if i > 0 {
                                assert(ps[i] == rest[i - 1]);
                                assert(kvs.skip(1)[i - 1] == kvs[i]);
                            }
                        }
                    },
                    Result::<Seq<(TypedModel, TypedModel)>, ErrorKind>::Err(_) => {},
                }
            },
            Result::<Seq<(TypedModel, TypedModel)>, ErrorKind>::Err(_) => {},
        }
    }
}

/// A section with distinct keys decodes, as a mapping with string keys, to
/// a mapping of exactly its child count, whatever order the children came
/// in: one entry per child and no two entries sharing a key.
pub proof fn lemma_mapping_cardinality(vsh: ShapeModel, kvs: Seq<KeyValueModel>)
    requires
        forall|i: int, j: int| 0 <= i < j < kvs.len() ==> kvs[i].key != kvs[j].key,
    ensures
        spec_decode(
            ShapeModel::Mapping(Box::new(ShapeModel::Str), Box::new(vsh)),
            ValueModel::Section(kvs),
        ) matches Ok(m) ==> m matches TypedModel::Mapping(ps) && ps.len() == kvs.len() && forall|
            i: int,
            j: int,
        | 0 <= i < j < ps.len() ==> ps[i].0 != ps[j].0,
{
    let sh = ShapeModel::Mapping(Box::new(ShapeModel::Str), Box::new(vsh));
    lemma_mapping_entries(vsh, kvs);
    match spec_decode(sh, ValueModel::Section(kvs)) {
        Result::<TypedModel, ErrorKind>::Ok(m) => {
            match spec_decode_entries(sh, kvs) {
                Result::<Seq<(TypedModel, TypedModel)>, ErrorKind>::Ok(ps) => {
                    assert forall|i: int, j: int| 0 <= i < j < ps.len() implies ps[i].0
                        != ps[j].0 by {
                        assert(ps[i].0 == TypedModel::Str(kvs[i].key));
                        assert(ps[j].0 == TypedModel::Str(kvs[j].key));
                    }
                },
                Result::<Seq<(TypedModel, TypedModel)>, ErrorKind>::Err(_) => {},
            }
        },
        Result::<TypedModel, ErrorKind>::Err(_) => {},
    }
}

/// Whether a character is a blank or a tab: what indentation is made of.
pub open spec fn is_blank(c: char) -> bool {
    c == ' ' || c == '\t'
}

/// Whether a text is all blanks and tabs.
pub open spec fn all_blank(s: Seq<char>) -> bool {
    forall|i: int| 0 <= i < s.len() ==> is_blank(#[trigger] s[i])
}

/// Whether a text holds neither line breaks nor carriage returns.
pub open spec fn line_clean(l: Seq<char>) -> bool {
    forall|i: int| 0 <= i < l.len() ==> #[trigger] l[i] != '\n' && l[i] != '\r'
}

/// The first line break sits where `nl_pos` says; everything before it is
/// break-free.
proof fn lemma_nl_pos_prefix(s: Seq<char>, i: int)
    requires
        nl_pos(s) == Some(i),
    ensures
        0 <= i < s.len(),
        s[i] == '\n',
        forall|k: int| 0 <= k < i ==> s[k] != '\n',
    decreases s.len(),
{
    if s.len() > 0 && s[0] != '\n' {
        match nl_pos(s.skip(1)) {
            Option::None => {},
            Option::Some(j) => {
                lemma_nl_pos_prefix(s.skip(1), j);
                assert forall|k: int| 0 <= k < i implies s[k] != '\n' by {
                    if k > 0 {
                        assert(s.skip(1)[k - 1] == s[k]);
                    }
                }
            },
        }
    }
}

/// A break-free text has no break for `nl_pos` to find.
proof fn lemma_nl_pos_missing(s: Seq<char>)
    requires
        forall|k: int| 0 <= k < s.len() ==> s[k] != '\n',
    ensures
        nl_pos(s) is None,
    decreases s.len(),
{
    if s.len() > 0 {
        lemma_nl_pos_missing(s.skip(1));
    }
}

/// Splitting the join of clean lines gives the lines back, provided the
/// last one is not empty.
proof fn lemma_lines_of_join(ls: Seq<Seq<char>>)
    requires
        forall|i: int| 0 <= i < ls.len() ==> line_clean(#[trigger] ls[i]),
        ls.len() > 0 ==> ls.last().len() > 0,
    ensures
        spec_lines(spec_join(ls)) == ls,
    decreases ls.len(),
{
    if ls.len() == 0 {
    } else if ls.len() == 1 {
        let l = ls[0];
        assert(spec_join(ls) == l);
        lemma_nl_pos_missing(l);
        assert(strip_cr(l) == l);
        assert(spec_lines(l) =~= ls);
    } else {
        lemma_lines_of_join(ls.skip(1));
        let l0 = ls[0];
        let rest = spec_join(ls.skip(1));
        let j = spec_join(ls);
        assert(ls.skip(1).len() > 0);
        assert(ls.skip(1).last() == ls.last());
        assert(j == l0 + seq!['\n'] + rest);
        assert(j[l0.len() as int] == '\n');
        assert forall|k: int| 0 <= k < l0.len() implies j[k] != '\n' by {
            assert(j[k] == l0[k]);
        }
        lemma_nl_pos_prefix_inv(j, l0.len() as int);
        assert(nl_pos(j) == Some(l0.len() as int));
        assert(j.take(l0.len() as int) =~= l0);
        assert(strip_cr(l0) == l0);
        assert(j.skip(l0.len() as int + 1) =~= rest);
        assert(spec_lines(j) == seq![l0] + spec_lines(rest));
        assert(seq![l0] + ls.skip(1) =~= ls);
    }
}

/// Where a break sits at `i` and none sits before it, `nl_pos` finds `i`.
proof fn lemma_nl_pos_prefix_inv(s: Seq<char>, i: int)
    requires
        0 <= i < s.len(),
        s[i] == '\n',
        forall|k: int| 0 <= k < i ==> s[k] != '\n',
    ensures
        nl_pos(s) == Some(i),
    decreases i,
{
    if i > 0 {
        lemma_nl_pos_prefix_inv(s.skip(1), i - 1);
    }
}

/// A repeated indentation unit is all blanks.
proof fn lemma_repeat_blank(tab: Seq<char>, n: int)
    requires
        all_blank(tab),
    ensures
        all_blank(spec_repeat(tab, n)),
        line_clean(spec_repeat(tab, n)),
    decreases n,
{
    if n > 0 {
        lemma_repeat_blank(tab, n - 1);
        assert forall|i: int| 0 <= i < spec_repeat(tab, n).len() implies is_blank(
            #[trigger] spec_repeat(tab, n)[i],
        ) by {
            if i < spec_repeat(tab, n - 1).len() {
                assert(spec_repeat(tab, n)[i] == spec_repeat(tab, n - 1)[i]);
            } else {
                assert(spec_repeat(tab, n)[i] == tab[i - spec_repeat(tab, n - 1).len()]);
            }
        }
    }
}

/// Leading blanks count through a blank prefix.
proof fn lemma_indent_len_concat(ind: Seq<char>, t: Seq<char>)
    requires
        all_blank(ind),
        indent_len(t) == 0,
    ensures
        indent_len(ind + t) == ind.len(),
    decreases ind.len(),
{
    crate::serializer::lemma_indent_len(t);
    crate::serializer::lemma_indent_len(ind + t);
    if ind.len() == 0 {
        assert(ind + t =~= t);
    } else {
        assert((ind + t)[0] == ind[0]);
        assert(ind.skip(1) + t =~= (ind + t).skip(1));
        lemma_indent_len_concat(ind.skip(1), t);
    }
}

/// Stripping indentation off an indented clean core gives the core back.
proof fn lemma_strip_of_indented(ind: Seq<char>, core: Seq<char>)
    requires
        all_blank(ind),
        indent_len(core) == 0,
    ensures
        strip_indent(ind + core) == core,
{
    lemma_indent_len_concat(ind, core);
    assert((ind + core).skip(ind.len() as int) =~= core);
}

/// A stripped line starts with no blank.
proof fn lemma_strip_indent_stripped(l: Seq<char>)
    ensures
        indent_len(strip_indent(l)) == 0,
        strip_indent(l).len() <= l.len(),
        strip_indent(l).len() > 0 ==> strip_indent(l).last() == l.last(),
        line_clean(l) ==> line_clean(strip_indent(l)),
{
    crate::serializer::lemma_indent_len(l);
    let n = indent_len(l);
    if strip_indent(l).len() > 0 {
        assert(!(l.skip(n)[0] == ' ' || l.skip(n)[0] == '\t'));
        if indent_len(strip_indent(l)) != 0 {
            crate::serializer::lemma_indent_len(strip_indent(l));
        }
        assert(strip_indent(l).last() == l[l.len() - 1]);
    } else {
        assert(indent_len(strip_indent(l)) == 0) by {
            crate::serializer::lemma_indent_len(strip_indent(l));
        }
    }
    if line_clean(l) {
        assert forall|i: int| 0 <= i < strip_indent(l).len() implies #[trigger] strip_indent(
            l,
        )[i] != '\n' && strip_indent(l)[i] != '\r' by {
            assert(strip_indent(l)[i] == l[n + i]);
        }
    }
}

/// Reindented lines are clean, one per source line, and the last is
/// nonempty when the last source line has substance.
proof fn lemma_pretty_lines_shape(ls: Seq<Seq<char>>, tab: Seq<char>, d: int)
    requires
        all_blank(tab),
        forall|i: int| 0 <= i < ls.len() ==> line_clean(#[trigger] ls[i]),
    ensures
        spec_pretty_lines(ls, tab, d).len() == ls.len(),
        forall|i: int| 0 <= i < ls.len() ==> line_clean(
            #[trigger] spec_pretty_lines(ls, tab, d)[i],
        ),
        ls.len() > 0 && strip_indent(ls.last()).len() > 0 ==> spec_pretty_lines(
            ls,
            tab,
            d,
        ).last().len() > 0,
    decreases ls.len(),
{
    if ls.len() > 0 {
        let l = ls[0];
        let d1 = if line_closes(l) {
            d - 1
        } else {
            d
        };
        let m = if d1 < 0 {
            0
        } else {
            d1
        };
        let d2 = if line_opens(l) {
            d1 + 1
        } else {
            d1
        };
        lemma_repeat_blank(tab, m);
        lemma_strip_indent_stripped(l);
        assert(line_clean(spec_repeat(tab, m) + strip_indent(l))) by {
            assert forall|i: int| 0 <= i < (spec_repeat(tab, m) + strip_indent(l)).len() implies
                #[trigger] (spec_repeat(tab, m) + strip_indent(l))[i] != '\n' && (spec_repeat(
                tab,
                m,
            ) + strip_indent(l))[i] != '\r' by {
                if i < spec_repeat(tab, m).len() {
                    assert((spec_repeat(tab, m) + strip_indent(l))[i] == spec_repeat(tab, m)[i]);
                } else {
                    assert((spec_repeat(tab, m) + strip_indent(l))[i] == strip_indent(l)[i
                        - spec_repeat(tab, m).len()]);
                }
            }
        }
        assert forall|i: int| 0 <= i < ls.skip(1).len() implies line_clean(
            #[trigger] ls.skip(1)[i],
        ) by {
            assert(ls.skip(1)[i] == ls[i + 1]);
        }
        lemma_pretty_lines_shape(ls.skip(1), tab, d2);
        if ls.len() > 1 {
            assert(ls.skip(1).last() == ls.last());
            assert(spec_pretty_lines(ls, tab, d).last() == spec_pretty_lines(
                ls.skip(1),
                tab,
                d2,
            ).last());
        }
    }
}

/// Reindenting already-reindented lines changes nothing.
proof fn lemma_pretty_lines_idempotent(ls: Seq<Seq<char>>, tab: Seq<char>, d: int)
    requires
        all_blank(tab),
        forall|i: int| 0 <= i < ls.len() ==> line_clean(#[trigger] ls[i]),
    ensures
        spec_pretty_lines(spec_pretty_lines(ls, tab, d), tab, d) == spec_pretty_lines(ls, tab, d),
    decreases ls.len(),
{
    if ls.len() > 0 {
        let l = ls[0];
        let d1 = if line_closes(l) {
            d - 1
        } else {
            d
        };
        let m = if d1 < 0 {
            0
        } else {
            d1
        };
        let d2 = if line_opens(l) {
            d1 + 1
        } else {
            d1
        };
        let lp = spec_repeat(tab, m) + strip_indent(l);
        lemma_repeat_blank(tab, m);
        lemma_strip_indent_stripped(l);
        assert(line_closes(lp) == line_closes(l) && line_opens(lp) == line_opens(l)) by {
            if strip_indent(l).len() > 0 {
                assert(lp.last() == strip_indent(l).last());
            } else {
                assert(lp =~= spec_repeat(tab, m));
                if lp.len() > 0 {
                    assert(is_blank(lp.last()));
                }
                if l.len() > 0 {
                    crate::serializer::lemma_indent_len(l);
                    assert(l[l.len() - 1] == ' ' || l[l.len() - 1] == '\t') by {
                        assert(strip_indent(l).len() == 0);
                        assert(indent_len(l) == l.len());
                    }
                }
            }
        }
        lemma_strip_of_indented(spec_repeat(tab, m), strip_indent(l));
        assert(strip_indent(lp) == strip_indent(l));
        assert forall|i: int| 0 <= i < ls.skip(1).len() implies line_clean(
            #[trigger] ls.skip(1)[i],
        ) by {
            assert(ls.skip(1)[i] == ls[i + 1]);
        }
        lemma_pretty_lines_idempotent(ls.skip(1), tab, d2);
        assert(spec_pretty_lines(ls, tab, d).skip(1) =~= spec_pretty_lines(ls.skip(1), tab, d2));
        assert(spec_pretty_lines(ls, tab, d)[0] == lp);
        assert(spec_pretty_lines(spec_pretty_lines(ls, tab, d), tab, d) =~= spec_pretty_lines(
            ls,
            tab,
            d,
        ));
    }
}

/// Formatting idempotence: reindenting already-reindented text is a no-op.
/// The indentation unit must be blanks or tabs; the text must hold no
/// carriage returns; and its last line, if any, must have substance beyond
/// indentation, else the reindenting pass drops a final empty line.
pub proof fn lemma_prettify_idempotent(s: Seq<char>, tab: Seq<char>)
    requires
        all_blank(tab),
        forall|i: int| 0 <= i < s.len() ==> #[trigger] s[i] != '\r',
        spec_lines(s).len() > 0 ==> strip_indent(spec_lines(s).last()).len() > 0,
    ensures
        spec_prettify(spec_prettify(s, tab), tab) == spec_prettify(s, tab),
{
    let ls = spec_lines(s);
    lemma_lines_clean(s);
    lemma_pretty_lines_shape(ls, tab, 0);
    let pls = spec_pretty_lines(ls, tab, 0);
    if ls.len() == 0 {
        assert(spec_prettify(s, tab) == Seq::<char>::empty());
        assert(spec_lines(Seq::<char>::empty()) =~= Seq::<Seq<char>>::empty());
    } else {
        lemma_lines_of_join(pls);
        lemma_pretty_lines_idempotent(ls, tab, 0);
    }
}

/// Every line a split produces is clean: breaks are consumed, and one
/// trailing carriage return is stripped, so a text without carriage
/// returns splits into lines without either.
proof fn lemma_lines_clean(s: Seq<char>)
    requires
        forall|i: int| 0 <= i < s.len() ==> #[trigger] s[i] != '\r',
    ensures
        forall|i: int| 0 <= i < spec_lines(s).len() ==> line_clean(#[trigger] spec_lines(s)[i]),
    decreases s.len(),
{
    if s.len() > 0 {
        match nl_pos(s) {
            Option::None => {
                lemma_nl_pos_missing_inv(s);
                assert(line_clean(strip_cr(s))) by {
                    assert(strip_cr(s) == s);
                }
            },
            Option::Some(i) => {
                lemma_nl_pos_prefix(s, i);
                assert forall|k: int| 0 <= k < s.skip(i + 1).len() implies #[trigger] s.skip(
                    i + 1,
                )[k] != '\r' by {
                    assert(s.skip(i + 1)[k] == s[i + 1 + k]);
                }
                lemma_lines_clean(s.skip(i + 1));
                assert(line_clean(strip_cr(s.take(i)))) by {
                    assert(strip_cr(s.take(i)) == s.take(i));
                    assert forall|k: int| 0 <= k < s.take(i).len() implies #[trigger] s.take(
                        i,
                    )[k] != '\n' && s.take(i)[k] != '\r' by {
                        assert(s.take(i)[k] == s[k]);
                    }
                }
                assert forall|k: int| 0 <= k < spec_lines(s).len() implies line_clean(
                    #[trigger] spec_lines(s)[k],
                ) by {
                    if k > 0 {
                        assert(spec_lines(s)[k] == spec_lines(s.skip(i + 1))[k - 1]);
                    }
                }
            },
        }
    }
}

/// A text whose break-finder finds nothing has no break at all.
proof fn lemma_nl_pos_missing_inv(s: Seq<char>)
    requires
        nl_pos(s) is None,
    ensures
        forall|k: int| 0 <= k < s.len() ==> s[k] != '\n',
    decreases s.len(),
{
    if s.len() > 0 {
        lemma_nl_pos_missing_inv(s.skip(1));
        assert forall|k: int| 0 <= k < s.len() implies s[k] != '\n' by {
            if k > 0 {
                assert(s.skip(1)[k - 1] == s[k]);
            }
        }
    }
}

/// Whether a typed value is scalar-kind: it flattens to one quoted string.
pub open spec fn is_scalar_kind(v: TypedModel) -> bool
    decreases v,
{
    match v {
        TypedModel::Sequence(_) => false,
        TypedModel::Mapping(_) => false,
        TypedModel::Struct(_) => false,
        TypedModel::OptSome(b) => is_scalar_kind(*b),
        _ => true,
    }
}

/// The scalar text a scalar-kind value encodes to: booleans as `1`/`0`,
/// numbers in decimal, the character or string or variant name verbatim,
/// nothing for units and absent options.
pub open spec fn scalar_text(v: TypedModel) -> Seq<char>
    decreases v,
{
    match v {
        TypedModel::Bool(b) => if b {
            seq!['1']
        } else {
            seq!['0']
        },
        TypedModel::Unsigned(n) => dec_digits(n as int),
        TypedModel::Signed(n) => dec_int(n as int),
        TypedModel::Char(c) => seq![c],
        TypedModel::Str(s) => s,
        TypedModel::Enum(n) => n,
        TypedModel::OptSome(b) => scalar_text(*b),
        _ => Seq::empty(),
    }
}

/// The tree a typed value encodes to: scalar-kind values become scalars of
/// their text; sequences become sections keyed by position; mappings and
/// structs become sections of their entries in order.
pub open spec fn tree_of(v: TypedModel) -> ValueModel
    decreases v, 1int,
{
    match v {
        TypedModel::Sequence(vs) => ValueModel::Section(elems_tree(vs, 0)),
        TypedModel::Mapping(ps) => ValueModel::Section(entries_tree(ps)),
        TypedModel::Struct(fs) => ValueModel::Section(fields_tree(fs)),
        TypedModel::OptSome(b) => tree_of(*b),
        _ => ValueModel::Scalar(scalar_text(v)),
    }
}

/// The children a sequence's elements encode to, keyed by position.
pub open spec fn elems_tree(vs: Seq<TypedModel>, i: int) -> Seq<KeyValueModel>
    decreases vs, 0int,
{
    if vs.len() == 0 {
        Seq::empty()
    } else {
        seq![KeyValueModel { key: dec_digits(i), value: tree_of(vs[0]) }] + elems_tree(
            vs.skip(1),
            i + 1,
        )
    }
}

/// The children a mapping's entries encode to.
pub open spec fn entries_tree(ps: Seq<(TypedModel, TypedModel)>) -> Seq<KeyValueModel>
    decreases ps, 0int,
{
    if ps.len() == 0 {
        Seq::empty()
    } else {
        seq![
            KeyValueModel {
                key: match key_string(ps[0].0) {
                    Option::Some(k) => k,
                    Option::None => Seq::empty(),
                },
                value: tree_of(ps[0].1),
            },
        ] + entries_tree(ps.skip(1))
    }
}

/// The children a struct's fields encode to.
pub open spec fn fields_tree(fs: Seq<(Seq<char>, TypedModel)>) -> Seq<KeyValueModel>
    decreases fs, 0int,
{
    if fs.len() == 0 {
        Seq::empty()
    } else {
        seq![KeyValueModel { key: fs[0].0, value: tree_of(fs[0].1) }] + fields_tree(fs.skip(1))
    }
}

/// Whether a typed value conforms to a shape: the relation the round trip
/// is stated over.
pub open spec fn shape_matches(sh: ShapeModel, v: TypedModel) -> bool
    decreases v, 1int,
{
    match (sh, v) {
        (ShapeModel::Bool, TypedModel::Bool(_)) => true,
        (ShapeModel::Unsigned(b), TypedModel::Unsigned(n)) => 1 <= b <= 64 && (b == 64 || n
            < pow2(b as int)),
        (ShapeModel::Signed(b), TypedModel::Signed(n)) => 1 <= b <= 64 && (b == 64 || (-pow2(
            b - 1,
        ) <= n < pow2(b - 1))),
        (ShapeModel::Char, TypedModel::Char(_)) => true,
        (ShapeModel::Str, TypedModel::Str(_)) => true,
        (ShapeModel::Unit, TypedModel::Unit) => true,
        (ShapeModel::Optional(_), TypedModel::OptNone) => true,
        (ShapeModel::Optional(inner), TypedModel::OptSome(b)) => shape_matches(*inner, *b),
        (ShapeModel::Sequence(elem), TypedModel::Sequence(vs)) => elems_match(*elem, vs),
        (ShapeModel::Mapping(ksh, vsh), TypedModel::Mapping(ps)) => entries_match(*ksh, *vsh, ps),
        (ShapeModel::Struct(fsh), TypedModel::Struct(fs)) => fields_match(fsh, fs),
        (ShapeModel::Enum(names), TypedModel::Enum(n)) => names.contains(n),
        _ => false,
    }
}

/// Whether every element conforms to the element shape.
pub open spec fn elems_match(elem: ShapeModel, vs: Seq<TypedModel>) -> bool
    decreases vs, 0int,
{
    if vs.len() == 0 {
        true
    } else {
        shape_matches(elem, vs[0]) && elems_match(elem, vs.skip(1))
    }
}

/// Whether every entry's key and value conform to the key and value
/// shapes.
pub open spec fn entries_match(ksh: ShapeModel, vsh: ShapeModel, ps: Seq<(TypedModel, TypedModel)>)
    -> bool
    decreases ps, 0int,
{
    if ps.len() == 0 {
        true
    } else {
        shape_matches(ksh, ps[0].0) && shape_matches(vsh, ps[0].1) && entries_match(
            ksh,
            vsh,
            ps.skip(1),
        )
    }
}

/// Whether a struct's fields carry the declared names in order and
/// conforming values.
pub open spec fn fields_match(
    fsh: Seq<(Seq<char>, ShapeModel)>,
    fs: Seq<(Seq<char>, TypedModel)>,
) -> bool
    decreases fs, 0int,
{
    if fs.len() != fsh.len() {
        false
    } else if fs.len() == 0 {
        true
    } else {
        fs[0].0 == fsh[0].0 && shape_matches(fsh[0].1, fs[0].1) && fields_match(
            fsh.skip(1),
            fs.skip(1),
        )
    }
}

/// The inputs the round trip holds on: options carry nonempty scalars,
/// sequences have at most ten elements so positional keys stay in
/// lexicographic order, mapping keys coerce to strings, and struct field
/// names are pairwise distinct.
pub open spec fn round_trippable(v: TypedModel) -> bool
    decreases v, 1int,
{
    match v {
        TypedModel::OptSome(b) => is_scalar_kind(*b) && scalar_text(*b).len() > 0
            && round_trippable(*b),
        TypedModel::Sequence(vs) => vs.len() <= 10 && elems_rt(vs),
        TypedModel::Mapping(ps) => entries_rt(ps),
        TypedModel::Struct(fs) => fields_distinct(fs) && fields_rt(fs),
        _ => true,
    }
}

/// Whether every element is round-trippable.
pub open spec fn elems_rt(vs: Seq<TypedModel>) -> bool
    decreases vs, 0int,
{
    if vs.len() == 0 {
        true
    } else {
        round_trippable(vs[0]) && elems_rt(vs.skip(1))
    }
}

/// Whether every entry's key coerces and every value is round-trippable.
pub open spec fn entries_rt(ps: Seq<(TypedModel, TypedModel)>) -> bool
    decreases ps, 0int,
{
    if ps.len() == 0 {
        true
    } else {
        key_string(ps[0].0) is Some && round_trippable(ps[0].1) && entries_rt(ps.skip(1))
    }
}

/// Whether every field value is round-trippable.
pub open spec fn fields_rt(fs: Seq<(Seq<char>, TypedModel)>) -> bool
    decreases fs, 0int,
{
    if fs.len() == 0 {
        true
    } else {
        round_trippable(fs[0].1) && fields_rt(fs.skip(1))
    }
}

/// Whether a struct's field names are pairwise distinct.
pub open spec fn fields_distinct(fs: Seq<(Seq<char>, TypedModel)>) -> bool {
    forall|i: int, j: int| 0 <= i < j < fs.len() ==> fs[i].0 != fs[j].0
}

/// The decimal numeral of a value parses back to it.
proof fn lemma_parse_of_dec(n: u64)
    ensures
        spec_parse_u64(dec_digits(n as int)) == Some(n),
{
    lemma_dec_digits_shape(n as int);
    lemma_digits_val_of_dec(n as int);
    assert(dec_digits(n as int)[0] != '+') by {
        assert(is_digit(dec_digits(n as int)[0]));
    }
}

/// A numeral is nonempty and all digits.
proof fn lemma_dec_digits_shape(n: int)
    requires
        n >= 0,
    ensures
        dec_digits(n).len() > 0,
        all_digits(dec_digits(n)),
        is_digit(dec_digits(n)[0]),
    decreases n,
{
    if n < 10 {
        assert(is_digit(digit_char(n)));
    } else {
        lemma_dec_digits_shape(n / 10);
        assert(is_digit(digit_char(n % 10)));
        assert forall|i: int| 0 <= i < dec_digits(n).len() implies is_digit(
            #[trigger] dec_digits(n)[i],
        ) by {
            if i < dec_digits(n / 10).len() {
                assert(dec_digits(n)[i] == dec_digits(n / 10)[i]);
            } else {
                assert(dec_digits(n)[i] == digit_char(n % 10));
            }
        }
        assert(dec_digits(n)[0] == dec_digits(n / 10)[0]);
    }
}

/// A numeral's digits evaluate back to the value.
proof fn lemma_digits_val_of_dec(n: int)
    requires
        n >= 0,
    ensures
        digits_val(dec_digits(n)) == n,
    decreases n,
{
    if n < 10 {
        assert(dec_digits(n) == seq![digit_char(n)]);
        assert(seq![digit_char(n)].drop_last() =~= Seq::<char>::empty());
        assert(digits_val(Seq::<char>::empty()) == 0);
        assert(seq![digit_char(n)].last() == digit_char(n));
        assert(digit_val(digit_char(n)) == n);
        assert(digits_val(dec_digits(n)) == digits_val(Seq::<char>::empty()) * 10 + digit_val(
            digit_char(n),
        ));
    } else {
        lemma_digits_val_of_dec(n / 10);
        assert(dec_digits(n).drop_last() =~= dec_digits(n / 10));
        assert(dec_digits(n).last() == digit_char(n % 10));
        assert(digit_val(digit_char(n % 10)) == n % 10);
    }
}

/// The signed decimal numeral of a value parses back to it.
proof fn lemma_parse_of_dec_i(n: i64)
    ensures
        spec_parse_i64(dec_int(n as int)) == Some(n),
{
    if n >= 0 {
        lemma_dec_digits_shape(n as int);
        lemma_digits_val_of_dec(n as int);
        assert(dec_int(n as int)[0] != '-') by {
            assert(is_digit(dec_int(n as int)[0]));
        }
        assert(dec_int(n as int)[0] != '+') by {
            assert(is_digit(dec_int(n as int)[0]));
        }
    } else {
        let m = -(n as int);
        lemma_dec_digits_shape(m);
        lemma_digits_val_of_dec(m);
        assert(dec_int(n as int) == seq!['-'] + dec_digits(m));
        assert(dec_int(n as int)[0] == '-');
        assert(dec_int(n as int).skip(1) =~= dec_digits(m));
    }
}

/// Distinct digits order by code point as they order numerically.
proof fn lemma_digit_char_lt(a: int, b: int)
    requires
        0 <= a < b < 10,
    ensures
        digit_char(a) != digit_char(b),
        (digit_char(a) as u32) < (digit_char(b) as u32),
{
}

/// A list already in ascending adjacent key order sorts to itself.
proof fn lemma_sort_sorted(s: Seq<KeyValueModel>)
    requires
        forall|i: int| 0 <= i < s.len() - 1 ==> lex_le(#[trigger] s[i].key, s[i + 1].key),
    ensures
        spec_sort_kvs(s) == s,
    decreases s.len(),
{
    if s.len() > 0 {
        assert forall|i: int| 0 <= i < s.drop_last().len() - 1 implies lex_le(
            #[trigger] s.drop_last()[i].key,
            s.drop_last()[i + 1].key,
        ) by {
            assert(s.drop_last()[i] == s[i]);
            assert(s.drop_last()[i + 1] == s[i + 1]);
        }
        lemma_sort_sorted(s.drop_last());
        if s.len() == 1 {
            assert(insert_sorted(s.drop_last(), s.last()) =~= seq![s.last()]);
            assert(seq![s.last()] =~= s);
        } else {
            assert(s.drop_last().last() == s[s.len() - 2]);
            assert(lex_le(s[s.len() - 2].key, s[s.len() - 1].key));
            assert(insert_sorted(s.drop_last(), s.last()) == s.drop_last().push(s.last()));
            assert(s.drop_last().push(s.last()) =~= s);
        }
    }
}

/// The children of an encoded sequence: one per element, keyed by its
/// position, holding its tree.
proof fn lemma_elems_tree_shape(vs: Seq<TypedModel>, i: int)
    ensures
        elems_tree(vs, i).len() == vs.len(),
        forall|k: int| 0 <= k < vs.len() ==> #[trigger] elems_tree(vs, i)[k]
            == (KeyValueModel { key: dec_digits(i + k), value: tree_of(vs[k]) }),
    decreases vs,
{
    if vs.len() > 0 {
        lemma_elems_tree_shape(vs.skip(1), i + 1);
        assert forall|k: int| 0 <= k < vs.len() implies #[trigger] elems_tree(vs, i)[k]
            == (KeyValueModel { key: dec_digits(i + k), value: tree_of(vs[k]) }) by {
            if k > 0 {
                assert(elems_tree(vs, i)[k] == elems_tree(vs.skip(1), i + 1)[k - 1]);
                assert(vs.skip(1)[k - 1] == vs[k]);
            }
        }
    }
}

/// Positional keys of at most ten elements stand in ascending
/// lexicographic order already.
proof fn lemma_elems_tree_sorted(vs: Seq<TypedModel>)
    requires
        vs.len() <= 10,
    ensures
        spec_sort_kvs(elems_tree(vs, 0)) == elems_tree(vs, 0),
{
    lemma_elems_tree_shape(vs, 0);
    let et = elems_tree(vs, 0);
    assert forall|i: int| 0 <= i < et.len() - 1 implies lex_le(
        #[trigger] et[i].key,
        et[i + 1].key,
    ) by {
        assert(et[i].key == dec_digits(i));
        assert(et[i + 1].key == dec_digits(i + 1));
        assert(dec_digits(i) == seq![digit_char(i)]);
        assert(dec_digits(i + 1) == seq![digit_char(i + 1)]);
        lemma_digit_char_lt(i, i + 1);
        assert(seq![digit_char(i)][0] == digit_char(i));
        assert(seq![digit_char(i + 1)][0] == digit_char(i + 1));
    }
    lemma_sort_sorted(et);
}

/// A coercible key decodes back from its canonical string, through a
/// matching key shape.
proof fn lemma_key_round_trip(ksh: ShapeModel, k: TypedModel)
    requires
        shape_matches(ksh, k),
        key_string(k) is Some,
    ensures
        spec_decode(ksh, ValueModel::Scalar(key_string(k)->Some_0)) == Ok::<
            TypedModel,
            ErrorKind,
        >(k),
{
    let s = key_string(k)->Some_0;
    match k {
        TypedModel::Bool(b) => {
            if b {
                assert(s == seq!['1']);
                assert(s[0] == '1');
                assert(s != seq!['0']) by {
                    if s == seq!['0'] {
                        assert(s[0] == '0');
                    }
                }
            } else {
                assert(s == seq!['0']);
            }
        },
        TypedModel::Unsigned(n) => {
            lemma_parse_of_dec(n);
        },
        TypedModel::Signed(n) => {
            lemma_parse_of_dec_i(n);
        },
        TypedModel::Char(c) => {
            assert(s.len() == 1);
            assert(s[0] == c);
        },
        _ => {},
    }
}

/// Decoding the encoded tree of a conforming, round-trippable value gives
/// the value back: the codec round trip at the tree level.
pub proof fn lemma_tree_round_trip(sh: ShapeModel, v: TypedModel)
    requires
        shape_matches(sh, v),
        round_trippable(v),
    ensures
        spec_decode(sh, tree_of(v)) == Ok::<TypedModel, ErrorKind>(v),
    decreases v, 1int, 0int,
{
    match v {
        TypedModel::Bool(b) => {
            if b {
                assert(scalar_text(v)[0] == '1');
                assert(scalar_text(v) != seq!['0']) by {
                    if scalar_text(v) == seq!['0'] {
                        assert(scalar_text(v)[0] == '0');
                    }
                }
            }
        },
        TypedModel::Unsigned(n) => {
            lemma_parse_of_dec(n);
        },
        TypedModel::Signed(n) => {
            lemma_parse_of_dec_i(n);
        },
        TypedModel::Char(c) => {
            assert(scalar_text(v).len() == 1);
            assert(scalar_text(v)[0] == c);
        },
        TypedModel::OptSome(b) => {
            assert(tree_of(*b) == ValueModel::Scalar(scalar_text(*b))) by {
                lemma_scalar_kind_tree(*b);
            }
            lemma_tree_round_trip(*sh->Optional_0, *b);
        },
        TypedModel::Sequence(vs) => {
            lemma_elems_tree_sorted(vs);
            lemma_rt_elems(*sh->Sequence_0, vs, 0);
        },
        TypedModel::Mapping(ps) => {
            lemma_rt_entries(sh, ps);
        },
        TypedModel::Struct(fs) => {
            let fsh = sh->Struct_0;
            lemma_fields_match_pointwise(fsh, fs);
            lemma_fields_rt_pointwise(fs);
            let n = fs.len();
            lemma_rt_struct_fill(sh, fsh, fs, 0, empty_slots(fsh.len()));
            let full = Seq::new(n, |i: int| Option::Some(fs[i].1));
            assert(fs.skip(0) =~= fs);
            assert forall|i: int| 0 <= i < fs.len() implies #[trigger] empty_slots(fsh.len())[i]
                is None by {
            }
            assert(spec_decode_struct(sh, fields_tree(fs), empty_slots(fsh.len())) == Ok::<
                Seq<Option<TypedModel>>,
                ErrorKind,
            >(full));
            assert forall|i: int| 0 <= i < full.len() implies #[trigger] full[i] is Some by {
            }
            assert(zip_fields(fsh, full) =~= fs);
        },
        _ => {},
    }
}

/// A scalar-kind value's tree is the scalar of its text.
proof fn lemma_scalar_kind_tree(v: TypedModel)
    requires
        is_scalar_kind(v),
    ensures
        tree_of(v) == ValueModel::Scalar(scalar_text(v)),
    decreases v,
{
    match v {
        TypedModel::OptSome(b) => {
            lemma_scalar_kind_tree(*b);
        },
        _ => {},
    }
}

/// Sequence elements decode back pointwise from their encoded children.
proof fn lemma_rt_elems(elem: ShapeModel, vs: Seq<TypedModel>, i: int)
    requires
        elems_match(elem, vs),
        elems_rt(vs),
    ensures
        spec_decode_elems(elem, elems_tree(vs, i)) == Ok::<Seq<TypedModel>, ErrorKind>(vs),
    decreases vs, 0int, 0int,
{
    if vs.len() == 0 {
        assert(elems_tree(vs, i).len() == 0);
        assert(Seq::<TypedModel>::empty() =~= vs);
    } else {
        lemma_tree_round_trip(elem, vs[0]);
        lemma_rt_elems(elem, vs.skip(1), i + 1);
        let et = elems_tree(vs, i);
        assert(et[0].value == tree_of(vs[0]));
        assert(et.skip(1) =~= elems_tree(vs.skip(1), i + 1));
        assert(seq![vs[0]] + vs.skip(1) =~= vs);
    }
}

/// Mapping entries decode back pointwise from their encoded children.
proof fn lemma_rt_entries(sh: ShapeModel, ps: Seq<(TypedModel, TypedModel)>)
    requires
        sh matches ShapeModel::Mapping(ksh, vsh) && entries_match(*ksh, *vsh, ps),
        entries_rt(ps),
    ensures
        spec_decode_entries(sh, entries_tree(ps)) == Ok::<
            Seq<(TypedModel, TypedModel)>,
            ErrorKind,
        >(ps),
    decreases ps, 0int, 0int,
{
    if ps.len() == 0 {
        assert(entries_tree(ps).len() == 0);
        assert(Seq::<(TypedModel, TypedModel)>::empty() =~= ps);
    } else {
        let et = entries_tree(ps);
        lemma_key_round_trip(*sh->Mapping_0, ps[0].0);
        lemma_tree_round_trip(*sh->Mapping_1, ps[0].1);
        lemma_rt_entries(sh, ps.skip(1));
        assert(et[0].key == key_string(ps[0].0)->Some_0);
        assert(et[0].value == tree_of(ps[0].1));
        assert(et.skip(1) =~= entries_tree(ps.skip(1)));
        assert(seq![(ps[0].0, ps[0].1)] + ps.skip(1) =~= ps);
    }
}

/// The declared names and shapes of a conforming struct line up
/// pointwise.
proof fn lemma_fields_match_pointwise(
    fsh: Seq<(Seq<char>, ShapeModel)>,
    fs: Seq<(Seq<char>, TypedModel)>,
)
    requires
        fields_match(fsh, fs),
    ensures
        fs.len() == fsh.len(),
        forall|i: int| 0 <= i < fs.len() ==> #[trigger] fs[i].0 == fsh[i].0 && shape_matches(
            fsh[i].1,
            fs[i].1,
        ),
    decreases fs,
{
    if fs.len() > 0 {
        lemma_fields_match_pointwise(fsh.skip(1), fs.skip(1));
        assert forall|i: int| 0 <= i < fs.len() implies #[trigger] fs[i].0 == fsh[i].0
            && shape_matches(fsh[i].1, fs[i].1) by {
            if i > 0 {
                assert(fs.skip(1)[i - 1] == fs[i]);
                assert(fsh.skip(1)[i - 1] == fsh[i]);
            }
        }
    }
}

/// Every field value of a round-trippable struct round-trips.
proof fn lemma_fields_rt_pointwise(fs: Seq<(Seq<char>, TypedModel)>)
    requires
        fields_rt(fs),
    ensures
        forall|i: int| 0 <= i < fs.len() ==> round_trippable(#[trigger] fs[i].1),
    decreases fs,
{
    if fs.len() > 0 {
        lemma_fields_rt_pointwise(fs.skip(1));
        assert forall|i: int| 0 <= i < fs.len() implies round_trippable(#[trigger] fs[i].1) by {
            if i > 0 {
                assert(fs.skip(1)[i - 1] == fs[i]);
            }
        }
    }
}

/// With pairwise distinct names, each name indexes its own field.
proof fn lemma_field_index_self(fsh: Seq<(Seq<char>, ShapeModel)>, m: int)
    requires
        0 <= m < fsh.len(),
        forall|i: int, j: int| 0 <= i < j < fsh.len() ==> fsh[i].0 != fsh[j].0,
    ensures
        field_index(fsh, fsh[m].0) == m,
    decreases m,
{
    if m > 0 {
        assert(fsh[0].0 != fsh[m].0);
        assert forall|i: int, j: int| 0 <= i < j < fsh.skip(1).len() implies fsh.skip(1)[i].0
            != fsh.skip(1)[j].0 by {
            assert(fsh.skip(1)[i] == fsh[i + 1]);
            assert(fsh.skip(1)[j] == fsh[j + 1]);
        }
        assert(fsh.skip(1)[m - 1] == fsh[m]);
        lemma_field_index_self(fsh.skip(1), m - 1);
    }
}

/// Walking a struct's encoded children in order fills each slot exactly
/// once, left to right.
proof fn lemma_rt_struct_fill(
    sh: ShapeModel,
    fsh: Seq<(Seq<char>, ShapeModel)>,
    fs: Seq<(Seq<char>, TypedModel)>,
    m: int,
    filled: Seq<Option<TypedModel>>,
)
    requires
        sh == ShapeModel::Struct(fsh),
        fs.len() == fsh.len(),
        forall|i: int| 0 <= i < fs.len() ==> #[trigger] fs[i].0 == fsh[i].0 && shape_matches(
            fsh[i].1,
            fs[i].1,
        ),
        forall|i: int| 0 <= i < fs.len() ==> round_trippable(#[trigger] fs[i].1),
        forall|i: int, j: int| 0 <= i < j < fs.len() ==> fs[i].0 != fs[j].0,
        0 <= m <= fs.len(),
        filled.len() == fs.len(),
        forall|i: int| 0 <= i < m ==> #[trigger] filled[i] == Option::Some(fs[i].1),
        forall|i: int| m <= i < fs.len() ==> #[trigger] filled[i] is None,
    ensures
        spec_decode_struct(sh, fields_tree(fs.skip(m)), filled) == Ok::<
            Seq<Option<TypedModel>>,
            ErrorKind,
        >(Seq::new(fs.len(), |i: int| Option::Some(fs[i].1))),
    decreases fs, 0int, fs.len() - m,
{
    if m == fs.len() {
        assert(fs.skip(m).len() == 0);
        assert(fields_tree(fs.skip(m)).len() == 0);
        assert(filled =~= Seq::new(fs.len(), |i: int| Option::Some(fs[i].1)));
    } else {
        let kvs = fields_tree(fs.skip(m));
        assert(fs.skip(m)[0] == fs[m]);
        assert(kvs[0] == KeyValueModel { key: fs[m].0, value: tree_of(fs[m].1) });
        assert forall|i: int, j: int| 0 <= i < j < fsh.len() implies fsh[i].0 != fsh[j].0 by {
            assert(fs[i].0 == fsh[i].0);
            assert(fs[j].0 == fsh[j].0);
        }
        lemma_field_index_self(fsh, m);
        assert(field_index(fsh, kvs[0].key) == m);
        assert(filled[m] is None);
        lemma_tree_round_trip(fsh[m].1, fs[m].1);
        assert(kvs.skip(1) =~= fields_tree(fs.skip(m + 1))) by {
            assert(fs.skip(m).skip(1) =~= fs.skip(m + 1));
        }
        let filled2 = filled.update(m, Option::Some(fs[m].1));
        assert forall|i: int| 0 <= i < m + 1 implies #[trigger] filled2[i] == Option::Some(
            fs[i].1,
        ) by {
        }
        assert forall|i: int| m + 1 <= i < fs.len() implies #[trigger] filled2[i] is None by {
        }
        lemma_rt_struct_fill(sh, fsh, fs, m + 1, filled2);
    }
}

/// A quote sits where `quote_pos` points.
proof fn lemma_quote_pos_hits(s: Seq<char>, i: int)
    requires
        quote_pos(s) == Some(i),
    ensures
        0 <= i < s.len(),
        s[i] == '"',
    decreases s.len(),
{
    if s.len() > 0 && s[0] != '"' {
        match quote_pos(s.skip(1)) {
            Option::None => {},
            Option::Some(j) => {
                lemma_quote_pos_hits(s.skip(1), j);
                assert(s.skip(1)[i - 1] == s[i]);
            },
        }
    }
}

/// Tokenizing a concatenation first exhausts the left part's tokens, when
/// the left part tokenizes completely on its own.
proof fn lemma_tokenize_append(a: Seq<char>, b: Seq<char>, ta: Seq<TokenModel>)
    requires
        spec_tokenize(a) == Some(ta),
    ensures
        spec_tokenize(a + b) == concat_toks(ta, spec_tokenize(b)),
    decreases a.len(),
{
    let s = a + b;
    if a.len() == 0 {
        assert(s =~= b);
        match spec_tokenize(b) {
            Option::None => {},
            Option::Some(tb) => {
                assert(ta + tb =~= tb);
            },
        }
    } else {
        assert(s[0] == a[0]);
        if crate::text::is_ws(a[0]) {
            assert(s.skip(1) =~= a.skip(1) + b);
            lemma_tokenize_append(a.skip(1), b, ta);
        } else if a[0] == '{' || a[0] == '}' {
            match spec_tokenize(a.skip(1)) {
                Option::None => {},
                Option::Some(ta1) => {
                    assert(s.skip(1) =~= a.skip(1) + b);
                    lemma_tokenize_append(a.skip(1), b, ta1);
                    let t = if a[0] == '{' {
                        TokenModel::Open
                    } else {
                        TokenModel::Close
                    };
                    assert(ta == seq![t] + ta1);
                    match spec_tokenize(b) {
                        Option::None => {},
                        Option::Some(tb) => {
                            assert(seq![t] + (ta1 + tb) =~= (seq![t] + ta1) + tb);
                        },
                    }
                },
            }
        } else if a[0] == '"' {
            match quote_pos(a.skip(1)) {
                Option::None => {},
                Option::Some(p) => {
                    lemma_quote_pos_hits(a.skip(1), p);
                    lemma_quote_pos_prefix(a.skip(1), p);
                    if 0 <= p && p + 2 <= a.len() {
                        assert forall|k: int| 0 <= k < p implies s.skip(1)[k] != '"' by {
                            assert(s.skip(1)[k] == a.skip(1)[k]);
                        }
                        assert(s.skip(1)[p] == a.skip(1)[p]);
                        crate::parser::lemma_quote_pos_found(s.skip(1), p);
                        assert(s.subrange(1, p + 1) =~= a.subrange(1, p + 1));
                        match spec_tokenize(a.skip(p + 2)) {
                            Option::None => {},
                            Option::Some(ta1) => {
                                assert(s.skip(p + 2) =~= a.skip(p + 2) + b);
                                lemma_tokenize_append(a.skip(p + 2), b, ta1);
                                let t = TokenModel::Quoted(a.subrange(1, p + 1));
                                assert(ta == seq![t] + ta1);
                                match spec_tokenize(b) {
                                    Option::None => {},
                                    Option::Some(tb) => {
                                        assert(seq![t] + (ta1 + tb) =~= (seq![t] + ta1) + tb);
                                    },
                                }
                            },
                        }
                    }
                },
            }
        } else {
            assert(a.len() >= 5 && a.subrange(0, 5) == base_marker());
            assert(s.len() >= 5);
            assert(s.subrange(0, 5) =~= a.subrange(0, 5));
            match spec_tokenize(a.skip(5)) {
                Option::None => {},
                Option::Some(ta1) => {
                    assert(s.skip(5) =~= a.skip(5) + b);
                    lemma_tokenize_append(a.skip(5), b, ta1);
                    assert(ta == seq![TokenModel::Base] + ta1);
                    match spec_tokenize(b) {
                        Option::None => {},
                        Option::Some(tb) => {
                            assert(seq![TokenModel::Base] + (ta1 + tb) =~= (seq![
                                TokenModel::Base,
                            ] + ta1) + tb);
                        },
                    }
                },
            }
        }
    }
}

/// Whether a piece of text can sit inside quotes and survive formatting:
/// it holds no quote character, no line break and no carriage return.
pub open spec fn text_ok(s: Seq<char>) -> bool {
    forall|i: int| 0 <= i < s.len() ==> #[trigger] s[i] != '"' && s[i] != '\n' && s[i] != '\r'
}

/// Whether every text a value encodes — scalar texts, mapping keys, field
/// names — can sit inside quotes and survive formatting.
pub open spec fn encode_clean(v: TypedModel) -> bool
    decreases v, 1int,
{
    match v {
        TypedModel::Sequence(vs) => elems_clean(vs),
        TypedModel::Mapping(ps) => entries_clean(ps),
        TypedModel::Struct(fs) => fields_clean(fs),
        TypedModel::OptSome(b) => encode_clean(*b),
        _ => text_ok(scalar_text(v)),
    }
}

/// Whether every element encodes clean text.
pub open spec fn elems_clean(vs: Seq<TypedModel>) -> bool
    decreases vs, 0int,
{
    if vs.len() == 0 {
        true
    } else {
        encode_clean(vs[0]) && elems_clean(vs.skip(1))
    }
}

/// Whether every entry's key text and value encode clean text.
pub open spec fn entries_clean(ps: Seq<(TypedModel, TypedModel)>) -> bool
    decreases ps, 0int,
{
    if ps.len() == 0 {
        true
    } else {
        (match key_string(ps[0].0) {
            Option::Some(k) => text_ok(k),
            Option::None => true,
        }) && encode_clean(ps[0].1) && entries_clean(ps.skip(1))
    }
}

/// Whether every field name and value encode clean text.
pub open spec fn fields_clean(fs: Seq<(Seq<char>, TypedModel)>) -> bool
    decreases fs, 0int,
{
    if fs.len() == 0 {
        true
    } else {
        text_ok(fs[0].0) && encode_clean(fs[0].1) && fields_clean(fs.skip(1))
    }
}

/// The token stream a tree renders to: scalars as quoted strings, sections
/// as braces around their children's tokens.
pub open spec fn value_toks(v: ValueModel) -> Seq<TokenModel>
    decreases v, 1int,
{
    match v {
        ValueModel::Scalar(s) => seq![TokenModel::Quoted(s)],
        ValueModel::Section(kvs) => seq![TokenModel::Open] + children_toks(kvs) + seq![
            TokenModel::Close,
        ],
    }
}

/// The token stream of a child list: each key quoted, then its value's
/// tokens.
pub open spec fn children_toks(kvs: Seq<KeyValueModel>) -> Seq<TokenModel>
    decreases kvs, 0int,
{
    if kvs.len() == 0 {
        Seq::empty()
    } else {
        seq![TokenModel::Quoted(kvs[0].key)] + value_toks(kvs[0].value) + children_toks(
            kvs.skip(1),
        )
    }
}

/// A quote-free text between quotes tokenizes to one quoted token.
proof fn lemma_tokenize_one_quoted(c: Seq<char>)
    requires
        quote_free(c),
    ensures
        spec_tokenize(quoted(c)) == Some(seq![TokenModel::Quoted(c)]),
{
    let s = quoted(c);
    assert(s[0] == '"');
    assert(s.len() == c.len() + 2);
    assert forall|k: int| 0 <= k < c.len() implies s.skip(1)[k] != '"' by {
        assert(s.skip(1)[k] == c[k]);
    }
    assert(s.skip(1)[c.len() as int] == '"');
    crate::parser::lemma_quote_pos_found(s.skip(1), c.len() as int);
    assert(s.subrange(1, c.len() as int + 1) =~= c);
    assert(s.skip(c.len() as int + 2) =~= Seq::<char>::empty());
    assert(spec_tokenize(s.skip(c.len() as int + 2)) == Some(Seq::<TokenModel>::empty()));
    assert(spec_tokenize(s) == cons_tok(
        TokenModel::Quoted(c),
        Some(Seq::<TokenModel>::empty()),
    ));
    assert(seq![TokenModel::Quoted(c)] + Seq::<TokenModel>::empty() =~= seq![
        TokenModel::Quoted(c),
    ]);
}

/// The text opening a section tokenizes to one opening brace.
proof fn lemma_tokenize_open(nl: bool)
    ensures
        spec_tokenize(open_brace(nl)) == Some(seq![TokenModel::Open]),
{
    let s = open_brace(nl);
    assert(seq!['\n'][0] == '\n');
    assert(seq!['\n'].skip(1) =~= Seq::<char>::empty());
    assert(spec_tokenize(Seq::<char>::empty()) == Some(Seq::<TokenModel>::empty()));
    assert(spec_tokenize(seq!['\n']) == Some(Seq::<TokenModel>::empty()));
    assert(seq!['{', '\n'][0] == '{');
    assert(seq!['{', '\n'].skip(1) =~= seq!['\n']);
    assert(seq![TokenModel::Open] + Seq::<TokenModel>::empty() =~= seq![TokenModel::Open]);
    assert(spec_tokenize(seq!['{', '\n']) == Some(seq![TokenModel::Open]));
    if nl {
        assert(s[0] == '\n');
        assert(s.skip(1) =~= seq!['{', '\n']);
    } else {
        assert(s =~= seq!['{', '\n']);
    }
}

/// The text closing a section tokenizes to one closing brace.
proof fn lemma_tokenize_close()
    ensures
        spec_tokenize(close_brace()) == Some(seq![TokenModel::Close]),
{
    let s = close_brace();
    assert(seq!['\n'][0] == '\n');
    assert(seq!['\n'].skip(1) =~= Seq::<char>::empty());
    assert(spec_tokenize(Seq::<char>::empty()) == Some(Seq::<TokenModel>::empty()));
    assert(spec_tokenize(seq!['\n']) == Some(Seq::<TokenModel>::empty()));
    assert(s[0] == '}');
    assert(s.skip(1) =~= seq!['\n']);
    assert(seq![TokenModel::Close] + Seq::<TokenModel>::empty() =~= seq![TokenModel::Close]);
}

/// A clean scalar-kind value's text is quote-free.
proof fn lemma_scalar_text_clean(v: TypedModel)
    requires
        encode_clean(v),
        is_scalar_kind(v),
    ensures
        text_ok(scalar_text(v)),
    decreases v,
{
    match v {
        TypedModel::OptSome(b) => {
            lemma_scalar_text_clean(*b);
        },
        _ => {},
    }
}

/// Decimal digits are clean text.
proof fn lemma_digits_text_ok(n: int)
    requires
        n >= 0,
    ensures
        text_ok(dec_digits(n)),
        quote_free(dec_digits(n)),
{
    lemma_dec_digits_shape(n);
    assert forall|i: int| 0 <= i < dec_digits(n).len() implies #[trigger] dec_digits(n)[i] != '"'
        && dec_digits(n)[i] != '\n' by {
        assert(is_digit(dec_digits(n)[i]));
    }
}

/// The flat text of a clean value tokenizes to the token stream of its
/// tree.
proof fn lemma_tokenize_flat(v: TypedModel, nl: bool)
    requires
        encode_clean(v),
    ensures
        spec_tokenize(spec_flat(v, nl)) == Some(value_toks(tree_of(v))),
    decreases v, 1int,
{
    match v {
        TypedModel::OptSome(b) => {
            lemma_tokenize_flat(*b, nl);
        },
        _ => {
            if is_scalar_kind(v) {
                lemma_scalar_text_clean(v);
                lemma_tokenize_one_quoted(scalar_text(v));
                lemma_flat_scalar_text(v, nl);
            }
        },
    }
    if !is_scalar_kind(v) {
        match v {
            TypedModel::Sequence(vs) => {
                lemma_tokenize_flat_elems(vs, 0);
                lemma_tokenize_section(
                    nl,
                    spec_flat_elems(vs, 0),
                    children_toks(elems_tree(vs, 0)),
                );
            },
            TypedModel::Mapping(ps) => {
                lemma_tokenize_flat_entries(ps);
                lemma_tokenize_section(
                    nl,
                    spec_flat_entries(ps),
                    children_toks(entries_tree(ps)),
                );
            },
            TypedModel::Struct(fs) => {
                lemma_tokenize_flat_fields(fs);
                lemma_tokenize_section(
                    nl,
                    spec_flat_fields(fs),
                    children_toks(fields_tree(fs)),
                );
            },
            _ => {},
        }
    }
}

/// A scalar-kind value's flat text is its quoted scalar text.
proof fn lemma_flat_scalar_text(v: TypedModel, nl: bool)
    requires
        is_scalar_kind(v),
    ensures
        spec_flat(v, nl) == quoted(scalar_text(v)),
    decreases v,
{
    match v {
        TypedModel::OptSome(b) => {
            lemma_flat_scalar_text(*b, nl);
        },
        _ => {},
    }
}

/// Brace-wrapped middle text tokenizes to brace-wrapped middle tokens.
proof fn lemma_tokenize_section(nl: bool, mid: Seq<char>, ts: Seq<TokenModel>)
    requires
        spec_tokenize(mid) == Some(ts),
    ensures
        spec_tokenize(open_brace(nl) + mid + close_brace()) == Some(
            seq![TokenModel::Open] + ts + seq![TokenModel::Close],
        ),
{
    lemma_tokenize_open(nl);
    lemma_tokenize_close();
    lemma_tokenize_append(mid, close_brace(), ts);
    lemma_tokenize_append(
        open_brace(nl),
        mid + close_brace(),
        seq![TokenModel::Open],
    );
    assert(open_brace(nl) + mid + close_brace() =~= open_brace(nl) + (mid + close_brace()));
    assert(seq![TokenModel::Open] + (ts + seq![TokenModel::Close]) =~= seq![TokenModel::Open]
        + ts + seq![TokenModel::Close]);
}

/// One encoded entry line tokenizes to its key and value tokens before the
/// rest.
proof fn lemma_tokenize_entry_line(
    key: Seq<char>,
    v: TypedModel,
    rest: Seq<char>,
    rest_toks: Seq<TokenModel>,
)
    requires
        text_ok(key),
        encode_clean(v),
        spec_tokenize(rest) == Some(rest_toks),
    ensures
        spec_tokenize(
            quoted(key) + seq![' '] + spec_flat(v, true) + entry_nl(v) + rest,
        ) == Some(seq![TokenModel::Quoted(key)] + value_toks(tree_of(v)) + rest_toks),
    decreases v,
{
    lemma_tokenize_flat(v, true);
    let tail0 = entry_nl(v) + rest;
    assert(spec_tokenize(tail0) == Some(rest_toks)) by {
        if ends_nl(v) {
            assert(tail0 =~= rest);
        } else {
            assert(tail0[0] == '\n');
            assert(tail0.skip(1) =~= rest);
        }
    }
    lemma_tokenize_append(spec_flat(v, true), tail0, value_toks(tree_of(v)));
    let tail1 = spec_flat(v, true) + tail0;
    assert(spec_tokenize(tail1) == Some(value_toks(tree_of(v)) + rest_toks));
    let tail2 = seq![' '] + tail1;
    assert(spec_tokenize(tail2) == Some(value_toks(tree_of(v)) + rest_toks)) by {
        assert(tail2[0] == ' ');
        assert(tail2.skip(1) =~= tail1);
    }
    lemma_tokenize_one_quoted(key);
    lemma_tokenize_append(quoted(key), tail2, seq![TokenModel::Quoted(key)]);
    assert(quoted(key) + seq![' '] + spec_flat(v, true) + entry_nl(v) + rest =~= quoted(key)
        + tail2);
    assert(seq![TokenModel::Quoted(key)] + (value_toks(tree_of(v)) + rest_toks) =~= seq![
        TokenModel::Quoted(key),
    ] + value_toks(tree_of(v)) + rest_toks);
}

/// The flat element lines of a clean sequence tokenize to its children's
/// tokens.
proof fn lemma_tokenize_flat_elems(vs: Seq<TypedModel>, i: int)
    requires
        elems_clean(vs),
        i >= 0,
    ensures
        spec_tokenize(spec_flat_elems(vs, i)) == Some(children_toks(elems_tree(vs, i))),
    decreases vs, 0int,
{
    if vs.len() == 0 {
        assert(children_toks(elems_tree(vs, i)) =~= Seq::<TokenModel>::empty());
    } else {
        lemma_tokenize_flat_elems(vs.skip(1), i + 1);
        lemma_digits_text_ok(i);
        lemma_tokenize_entry_line(
            dec_digits(i),
            vs[0],
            spec_flat_elems(vs.skip(1), i + 1),
            children_toks(elems_tree(vs.skip(1), i + 1)),
        );
        assert(elems_tree(vs, i)[0] == KeyValueModel {
            key: dec_digits(i),
            value: tree_of(vs[0]),
        });
        assert(elems_tree(vs, i).skip(1) =~= elems_tree(vs.skip(1), i + 1));
        assert(seq![TokenModel::Quoted(dec_digits(i))] + value_toks(tree_of(vs[0]))
            + children_toks(elems_tree(vs.skip(1), i + 1)) =~= children_toks(elems_tree(vs, i)));
    }
}

/// The flat entry lines of a clean mapping tokenize to its children's
/// tokens.
proof fn lemma_tokenize_flat_entries(ps: Seq<(TypedModel, TypedModel)>)
    requires
        entries_clean(ps),
    ensures
        spec_tokenize(spec_flat_entries(ps)) == Some(children_toks(entries_tree(ps))),
    decreases ps, 0int,
{
    if ps.len() == 0 {
        assert(children_toks(entries_tree(ps)) =~= Seq::<TokenModel>::empty());
    } else {
        lemma_tokenize_flat_entries(ps.skip(1));
        let key = match key_string(ps[0].0) {
            Option::Some(k) => k,
            Option::None => Seq::empty(),
        };
        lemma_tokenize_entry_line(
            key,
            ps[0].1,
            spec_flat_entries(ps.skip(1)),
            children_toks(entries_tree(ps.skip(1))),
        );
        assert(entries_tree(ps)[0] == KeyValueModel { key: key, value: tree_of(ps[0].1) });
        assert(entries_tree(ps).skip(1) =~= entries_tree(ps.skip(1)));
        assert(seq![TokenModel::Quoted(key)] + value_toks(tree_of(ps[0].1)) + children_toks(
            entries_tree(ps.skip(1)),
        ) =~= children_toks(entries_tree(ps)));
    }
}

/// The flat field lines of a clean struct tokenize to its children's
/// tokens.
proof fn lemma_tokenize_flat_fields(fs: Seq<(Seq<char>, TypedModel)>)
    requires
        fields_clean(fs),
    ensures
        spec_tokenize(spec_flat_fields(fs)) == Some(children_toks(fields_tree(fs))),
    decreases fs, 0int,
{
    if fs.len() == 0 {
        assert(children_toks(fields_tree(fs)) =~= Seq::<TokenModel>::empty());
    } else {
        lemma_tokenize_flat_fields(fs.skip(1));
        lemma_tokenize_entry_line(
            fs[0].0,
            fs[0].1,
            spec_flat_fields(fs.skip(1)),
            children_toks(fields_tree(fs.skip(1))),
        );
        assert(fields_tree(fs)[0] == KeyValueModel { key: fs[0].0, value: tree_of(fs[0].1) });
        assert(fields_tree(fs).skip(1) =~= fields_tree(fs.skip(1)));
        assert(seq![TokenModel::Quoted(fs[0].0)] + value_toks(tree_of(fs[0].1)) + children_toks(
            fields_tree(fs.skip(1)),
        ) =~= children_toks(fields_tree(fs)));
    }
}

/// Parsing one pair's tokens at their position yields the pair and lands
/// just past its tokens.
proof fn lemma_parse_kv_of(ts: Seq<TokenModel>, i: int, kv: KeyValueModel)
    requires
        0 <= i,
        i + 1 + value_toks(kv.value).len() <= ts.len(),
        ts.subrange(i, i + 1 + value_toks(kv.value).len()) == seq![TokenModel::Quoted(kv.key)]
            + value_toks(kv.value),
    ensures
        spec_parse_kv(ts, i) == Some((kv, i + 1 + value_toks(kv.value).len())),
    decreases kv, 0int,
{
    let seg = seq![TokenModel::Quoted(kv.key)] + value_toks(kv.value);
    let n = value_toks(kv.value).len() as int;
    assert(ts[i] == seg[0]);
    assert(ts[i] == TokenModel::Quoted(kv.key));
    match kv.value {
        ValueModel::Scalar(sv) => {
            assert(value_toks(kv.value) == seq![TokenModel::Quoted(sv)]);
            assert(ts[i + 1] == seg[1]);
            assert(seg[1] == TokenModel::Quoted(sv));
            assert(kv == KeyValueModel { key: kv.key, value: ValueModel::Scalar(sv) });
        },
        ValueModel::Section(inner) => {
            let ct = children_toks(inner);
            assert(value_toks(kv.value) == seq![TokenModel::Open] + ct + seq![
                TokenModel::Close,
            ]);
            assert(n == ct.len() + 2);
            assert(ts[i + 1] == seg[1]);
            assert(seg[1] == TokenModel::Open);
            assert(ts.subrange(i + 2, i + 2 + ct.len() as int) =~= ct) by {
                assert forall|k: int| 0 <= k < ct.len() implies ts.subrange(
                    i + 2,
                    i + 2 + ct.len() as int,
                )[k] == ct[k] by {
                    assert(ts.subrange(i + 2, i + 2 + ct.len() as int)[k] == ts[i + 2 + k]);
                    assert(ts[i + 2 + k] == seg[2 + k]);
                    assert(seg[2 + k] == value_toks(kv.value)[1 + k]);
                    assert(value_toks(kv.value)[1 + k] == ct[k]);
                }
            }
            assert(ts[i + 2 + ct.len() as int] == seg[2 + ct.len() as int]);
            assert(seg[2 + ct.len() as int] == value_toks(kv.value)[1 + ct.len() as int]);
            assert(value_toks(kv.value)[1 + ct.len() as int] == TokenModel::Close);
            lemma_parse_section_of(ts, i + 2, inner);
            assert(kv == KeyValueModel { key: kv.key, value: ValueModel::Section(inner) });
        },
    }
}

/// Parsing a section's children's tokens followed by a closing brace
/// yields the children and lands just past the brace.
proof fn lemma_parse_section_of(ts: Seq<TokenModel>, i: int, kvs: Seq<KeyValueModel>)
    requires
        0 <= i,
        i + children_toks(kvs).len() + 1 <= ts.len(),
        ts.subrange(i, i + children_toks(kvs).len() as int) == children_toks(kvs),
        ts[i + children_toks(kvs).len() as int] == TokenModel::Close,
    ensures
        spec_parse_section(ts, i) == Some((kvs, i + children_toks(kvs).len() + 1)),
    decreases kvs, 1int,
{
    let ct = children_toks(kvs);
    if kvs.len() == 0 {
        assert(ct.len() == 0);
        assert(ts[i] == TokenModel::Close);
        assert(spec_parse_section(ts, i) == Some((Seq::<KeyValueModel>::empty(), i + 1)));
        assert(Seq::<KeyValueModel>::empty() =~= kvs);
    } else {
        let kv = kvs[0];
        let head = seq![TokenModel::Quoted(kv.key)] + value_toks(kv.value);
        let hl = head.len() as int;
        assert(ct == head + children_toks(kvs.skip(1)));
        assert(ts.subrange(i, i + hl) =~= head) by {
            assert forall|k: int| 0 <= k < hl implies ts.subrange(i, i + hl)[k] == head[k] by {
                assert(ts.subrange(i, i + hl)[k] == ts[i + k]);
                assert(ts[i + k] == ct[k]);
                assert(ct[k] == head[k]);
            }
        }
        lemma_parse_kv_of(ts, i, kv);
        let j = i + hl;
        assert(ts[i] == TokenModel::Quoted(kv.key));
        assert(!(ts[i] is Close));
        assert(ts.subrange(j, j + children_toks(kvs.skip(1)).len() as int) =~= children_toks(
            kvs.skip(1),
        )) by {
            assert forall|k: int| 0 <= k < children_toks(kvs.skip(1)).len() implies ts.subrange(
                j,
                j + children_toks(kvs.skip(1)).len() as int,
            )[k] == children_toks(kvs.skip(1))[k] by {
                assert(ts.subrange(j, j + children_toks(kvs.skip(1)).len() as int)[k] == ts[j
                    + k]);
                assert(ts[j + k] == ct[hl + k]);
                assert(ct[hl + k] == children_toks(kvs.skip(1))[k]);
            }
        }
        assert(ts[j + children_toks(kvs.skip(1)).len() as int] == TokenModel::Close);
        lemma_parse_section_of(ts, j, kvs.skip(1));
        assert(seq![kv] + kvs.skip(1) =~= kvs);
    }
}

/// Parsing a stream that is exactly a child list's tokens yields a file of
/// those pairs and no imports.
proof fn lemma_parse_items_of(ts: Seq<TokenModel>, i: int, kvs: Seq<KeyValueModel>)
    requires
        0 <= i,
        i + children_toks(kvs).len() == ts.len(),
        ts.subrange(i, i + children_toks(kvs).len() as int) == children_toks(kvs),
    ensures
        spec_parse_items(ts, i) == Some(
            crate::kv::KeyValueFileModel { imports: Seq::empty(), kvs: kvs },
        ),
    decreases kvs, 1int,
{
    let ct = children_toks(kvs);
    if kvs.len() == 0 {
        assert(ct.len() == 0);
        assert(i >= ts.len());
        assert(Seq::<KeyValueModel>::empty() =~= kvs);
    } else {
        let kv = kvs[0];
        let head = seq![TokenModel::Quoted(kv.key)] + value_toks(kv.value);
        let hl = head.len() as int;
        assert(ct == head + children_toks(kvs.skip(1)));
        assert(ts.subrange(i, i + hl) =~= head) by {
            assert forall|k: int| 0 <= k < hl implies ts.subrange(i, i + hl)[k] == head[k] by {
                assert(ts.subrange(i, i + hl)[k] == ts[i + k]);
                assert(ts[i + k] == ct[k]);
                assert(ct[k] == head[k]);
            }
        }
        lemma_parse_kv_of(ts, i, kv);
        let j = i + hl;
        assert(ts[i] == TokenModel::Quoted(kv.key));
        assert(i < ts.len());
        assert(!(ts[i] is Base));
        assert(ts.subrange(j, j + children_toks(kvs.skip(1)).len() as int) =~= children_toks(
            kvs.skip(1),
        )) by {
            assert forall|k: int| 0 <= k < children_toks(kvs.skip(1)).len() implies ts.subrange(
                j,
                j + children_toks(kvs.skip(1)).len() as int,
            )[k] == children_toks(kvs.skip(1))[k] by {
                assert(ts.subrange(j, j + children_toks(kvs.skip(1)).len() as int)[k] == ts[j
                    + k]);
                assert(ts[j + k] == ct[hl + k]);
                assert(ct[hl + k] == children_toks(kvs.skip(1))[k]);
            }
        }
        lemma_parse_items_of(ts, j, kvs.skip(1));
        assert(seq![kv] + kvs.skip(1) =~= kvs);
        assert(Seq::<Seq<char>>::empty() + Seq::<Seq<char>>::empty() =~= Seq::<
            Seq<char>,
        >::empty());
    }
}

/// Whether a token's content holds no line break.
pub open spec fn tok_clean(t: TokenModel) -> bool {
    match t {
        TokenModel::Quoted(c) => forall|k: int| 0 <= k < c.len() ==> #[trigger] c[k] != '\n',
        _ => true,
    }
}

/// Whether no quoted token's content holds a line break.
pub open spec fn toks_clean(ts: Seq<TokenModel>) -> bool {
    forall|i: int| 0 <= i < ts.len() ==> tok_clean(#[trigger] ts[i])
}

/// Leading whitespace never changes a tokenization.
proof fn lemma_tokenize_ws_prefix(w: Seq<char>, x: Seq<char>)
    requires
        forall|i: int| 0 <= i < w.len() ==> crate::text::is_ws(#[trigger] w[i]),
    ensures
        spec_tokenize(w + x) == spec_tokenize(x),
    decreases w.len(),
{
    if w.len() == 0 {
        assert(w + x =~= x);
    } else {
        let s = w + x;
        assert(s[0] == w[0]);
        assert(s.skip(1) =~= w.skip(1) + x);
        assert forall|i: int| 0 <= i < w.skip(1).len() implies crate::text::is_ws(
            #[trigger] w.skip(1)[i],
        ) by {
            assert(w.skip(1)[i] == w[i + 1]);
        }
        lemma_tokenize_ws_prefix(w.skip(1), x);
    }
}

/// Tokens never span a line break: where the whole text tokenizes with
/// break-free tokens, each side of a break tokenizes on its own, and the
/// tokens split there.
#[verifier::rlimit(100)]
proof fn lemma_tokenize_split_nl(a: Seq<char>, b: Seq<char>, ts: Seq<TokenModel>)
    requires
        spec_tokenize(a + seq!['\n'] + b) == Some(ts),
        toks_clean(ts),
    ensures
        spec_tokenize(a) is Some,
        spec_tokenize(b) is Some,
        ts == spec_tokenize(a)->Some_0 + spec_tokenize(b)->Some_0,
    decreases a.len(),
{
    let s = a + seq!['\n'] + b;
    if a.len() == 0 {
        assert(s[0] == '\n');
        assert(s.skip(1) =~= b);
        assert(spec_tokenize(a) == Some(Seq::<TokenModel>::empty())) by {
            assert(a =~= Seq::<char>::empty());
        }
        assert(Seq::<TokenModel>::empty() + ts =~= ts);
    } else {
        assert(s[0] == a[0]);
        if crate::text::is_ws(a[0]) {
            assert(s.skip(1) =~= a.skip(1) + seq!['\n'] + b);
            lemma_tokenize_split_nl(a.skip(1), b, ts);
        } else if a[0] == '{' || a[0] == '}' {
            match spec_tokenize(s.skip(1)) {
                Option::None => {},
                Option::Some(rest) => {
                    assert(s.skip(1) =~= a.skip(1) + seq!['\n'] + b);
                    let t = if a[0] == '{' {
                        TokenModel::Open
                    } else {
                        TokenModel::Close
                    };
                    assert(ts == seq![t] + rest);
                    assert(toks_clean(rest)) by {
                        assert forall|i: int| 0 <= i < rest.len() implies tok_clean(
                            #[trigger] rest[i],
                        ) by {
                            assert(rest[i] == ts[i + 1]);
                        }
                    }
                    lemma_tokenize_split_nl(a.skip(1), b, rest);
                    assert(seq![t] + (spec_tokenize(a.skip(1))->Some_0 + spec_tokenize(
                        b,
                    )->Some_0) =~= (seq![t] + spec_tokenize(a.skip(1))->Some_0)
                        + spec_tokenize(b)->Some_0);
                },
            }
        } else if a[0] == '"' {
            match quote_pos(s.skip(1)) {
                Option::None => {},
                Option::Some(p) => {
                    lemma_quote_pos_hits(s.skip(1), p);
                    lemma_quote_pos_prefix(s.skip(1), p);
                    if 0 <= p && p + 2 <= s.len() {
                        if p == a.len() - 1 {
                            assert(s.skip(1)[p] == '\n');
                        }
                        if p > a.len() - 1 {
                            let c = s.subrange(1, p + 1);
                            assert(c.len() == p);
                            assert(0 <= a.len() - 1 < c.len());
                            assert(c[a.len() - 1] == s[a.len() as int]);
                            assert(s[a.len() as int] == '\n');
                            match spec_tokenize(s.skip(p + 2)) {
                                Option::None => {},
                                Option::Some(rest) => {
                                    assert(ts == seq![TokenModel::Quoted(c)] + rest);
                                    assert(ts[0] == TokenModel::Quoted(c));
                                    assert(tok_clean(ts[0]));
                                    assert(ts[0]->Quoted_0 == c);
                                    assert((ts[0]->Quoted_0)[a.len() - 1] != '\n');
                                    assert(false);
                                },
                            }
                        }
                        assert(p < a.len() - 1);
                        assert forall|k: int| 0 <= k < p implies a.skip(1)[k] != '"' by {
                            assert(a.skip(1)[k] == s.skip(1)[k]);
                        }
                        assert(a.skip(1)[p] == s.skip(1)[p]);
                        crate::parser::lemma_quote_pos_found(a.skip(1), p);
                        assert(a.subrange(1, p + 1) =~= s.subrange(1, p + 1));
                        match spec_tokenize(s.skip(p + 2)) {
                            Option::None => {},
                            Option::Some(rest) => {
                                assert(s.skip(p + 2) =~= a.skip(p + 2) + seq!['\n'] + b);
                                let t = TokenModel::Quoted(s.subrange(1, p + 1));
                                assert(ts == seq![t] + rest);
                                assert(toks_clean(rest)) by {
                                    assert forall|i: int| 0 <= i < rest.len() implies tok_clean(
                                        #[trigger] rest[i],
                                    ) by {
                                        assert(rest[i] == ts[i + 1]);
                                    }
                                }
                                lemma_tokenize_split_nl(a.skip(p + 2), b, rest);
                                assert(seq![t] + (spec_tokenize(a.skip(p + 2))->Some_0
                                    + spec_tokenize(b)->Some_0) =~= (seq![t] + spec_tokenize(
                                    a.skip(p + 2),
                                )->Some_0) + spec_tokenize(b)->Some_0);
                            },
                        }
                    }
                },
            }
        } else {
            assert(s.len() >= 5 && s.subrange(0, 5) == base_marker());
            if a.len() < 5 {
                assert(s.subrange(0, 5)[a.len() as int] == '\n');
                assert(base_marker()[a.len() as int] != '\n');
                assert(false);
            }
            assert(a.subrange(0, 5) =~= s.subrange(0, 5));
            match spec_tokenize(s.skip(5)) {
                Option::None => {},
                Option::Some(rest) => {
                    assert(s.skip(5) =~= a.skip(5) + seq!['\n'] + b);
                    assert(ts == seq![TokenModel::Base] + rest);
                    assert(toks_clean(rest)) by {
                        assert forall|i: int| 0 <= i < rest.len() implies tok_clean(
                            #[trigger] rest[i],
                        ) by {
                            assert(rest[i] == ts[i + 1]);
                        }
                    }
                    lemma_tokenize_split_nl(a.skip(5), b, rest);
                    assert(seq![TokenModel::Base] + (spec_tokenize(a.skip(5))->Some_0
                        + spec_tokenize(b)->Some_0) =~= (seq![TokenModel::Base] + spec_tokenize(
                        a.skip(5),
                    )->Some_0) + spec_tokenize(b)->Some_0);
                },
            }
        }
    }
}

/// A single reindented line tokenizes as the line does: indentation is
/// whitespace on both sides.
proof fn lemma_tokenize_pretty_line(l: Seq<char>, tab: Seq<char>, m: int)
    requires
        all_blank(tab),
    ensures
        spec_tokenize(spec_repeat(tab, m) + strip_indent(l)) == spec_tokenize(l),
{
    lemma_repeat_blank(tab, m);
    crate::serializer::lemma_indent_len(l);
    assert forall|i: int| 0 <= i < spec_repeat(tab, m).len() implies crate::text::is_ws(
        #[trigger] spec_repeat(tab, m)[i],
    ) by {
        assert(is_blank(spec_repeat(tab, m)[i]));
    }
    lemma_tokenize_ws_prefix(spec_repeat(tab, m), strip_indent(l));
    let ind = l.take(indent_len(l));
    assert forall|i: int| 0 <= i < ind.len() implies crate::text::is_ws(#[trigger] ind[i]) by {
        assert(ind[i] == l[i]);
    }
    lemma_tokenize_ws_prefix(ind, strip_indent(l));
    assert(ind + strip_indent(l) =~= l);
}

/// Reindenting a list of break-free lines leaves the tokens of their join
/// unchanged.
proof fn lemma_tokenize_pretty_lines(
    ls: Seq<Seq<char>>,
    tab: Seq<char>,
    d: int,
    ts: Seq<TokenModel>,
)
    requires
        all_blank(tab),
        forall|i: int| 0 <= i < ls.len() ==> line_clean(#[trigger] ls[i]),
        spec_tokenize(spec_join(ls)) == Some(ts),
        toks_clean(ts),
    ensures
        spec_tokenize(spec_join(spec_pretty_lines(ls, tab, d))) == Some(ts),
    decreases ls.len(),
{
    if ls.len() == 0 {
    } else {
        let l = ls[0];
        let d1 = if line_closes(l) {
            d - 1
        } else {
            d
        };
        let m = if d1 < 0 {
            0
        } else {
            d1
        };
        let d2 = if line_opens(l) {
            d1 + 1
        } else {
            d1
        };
        let lp = spec_repeat(tab, m) + strip_indent(l);
        lemma_tokenize_pretty_line(l, tab, m);
        if ls.len() == 1 {
            assert(spec_join(ls) == l);
            assert(ls.skip(1) =~= Seq::<Seq<char>>::empty());
            assert(spec_pretty_lines(ls.skip(1), tab, d2) =~= Seq::<Seq<char>>::empty());
            assert(spec_pretty_lines(ls, tab, d) =~= seq![lp]);
            assert(spec_join(spec_pretty_lines(ls, tab, d)) == lp);
        } else {
            assert(spec_join(ls) == l + seq!['\n'] + spec_join(ls.skip(1)));
            lemma_tokenize_split_nl(l, spec_join(ls.skip(1)), ts);
            let tl = spec_tokenize(l)->Some_0;
            let tr = spec_tokenize(spec_join(ls.skip(1)))->Some_0;
            assert(toks_clean(tl) && toks_clean(tr)) by {
                assert forall|i: int| 0 <= i < tl.len() implies tok_clean(#[trigger] tl[i]) by {
                    assert(tl[i] == ts[i]);
                }
                assert forall|i: int| 0 <= i < tr.len() implies tok_clean(#[trigger] tr[i]) by {
                    assert(tr[i] == ts[tl.len() + i]);
                }
            }
            assert forall|i: int| 0 <= i < ls.skip(1).len() implies line_clean(
                #[trigger] ls.skip(1)[i],
            ) by {
                assert(ls.skip(1)[i] == ls[i + 1]);
            }
            lemma_tokenize_pretty_lines(ls.skip(1), tab, d2, tr);
            let pls = spec_pretty_lines(ls, tab, d);
            assert(pls == seq![lp] + spec_pretty_lines(ls.skip(1), tab, d2));
            assert(pls.len() >= 2) by {
                lemma_pretty_lines_shape(ls.skip(1), tab, d2);
            }
            assert(pls[0] == lp);
            assert(pls.skip(1) =~= spec_pretty_lines(ls.skip(1), tab, d2));
            assert(spec_join(pls) == lp + seq!['\n'] + spec_join(pls.skip(1)));
            lemma_tokenize_append(lp, seq!['\n'] + spec_join(pls.skip(1)), tl);
            assert(spec_tokenize(seq!['\n'] + spec_join(pls.skip(1))) == Some(tr)) by {
                lemma_tokenize_ws_prefix(seq!['\n'], spec_join(pls.skip(1)));
            }
            assert(lp + (seq!['\n'] + spec_join(pls.skip(1))) =~= spec_join(pls));
        }
    }
}

/// A text without carriage returns is the join of its lines, give or take
/// one trailing break.
proof fn lemma_join_of_lines(s: Seq<char>)
    requires
        forall|i: int| 0 <= i < s.len() ==> #[trigger] s[i] != '\r',
    ensures
        spec_join(spec_lines(s)) == s || spec_join(spec_lines(s)) + seq!['\n'] == s,
    decreases s.len(),
{
    if s.len() > 0 {
        match nl_pos(s) {
            Option::None => {
                lemma_nl_pos_missing_inv(s);
                assert(strip_cr(s) == s);
                assert(spec_lines(s) =~= seq![s]);
                assert(spec_join(seq![s]) == s);
            },
            Option::Some(p) => {
                lemma_nl_pos_prefix(s, p);
                let l0 = s.take(p);
                let rest = s.skip(p + 1);
                assert(strip_cr(l0) == l0) by {
                    if l0.len() > 0 {
                        assert(l0.last() == s[p - 1]);
                    }
                }
                assert(spec_lines(s) == seq![l0] + spec_lines(rest));
                assert forall|i: int| 0 <= i < rest.len() implies #[trigger] rest[i] != '\r' by {
                    assert(rest[i] == s[p + 1 + i]);
                }
                lemma_join_of_lines(rest);
                if rest.len() == 0 {
                    assert(spec_lines(rest) =~= Seq::<Seq<char>>::empty());
                    assert(spec_lines(s) =~= seq![l0]);
                    assert(spec_join(seq![l0]) == l0);
                    assert(l0 + seq!['\n'] =~= s);
                } else {
                    assert(spec_lines(rest).len() > 0) by {
                        lemma_lines_nonempty(rest);
                    }
                    assert(spec_lines(s).len() >= 2);
                    assert(spec_lines(s)[0] == l0);
                    assert(spec_lines(s).skip(1) =~= spec_lines(rest));
                    assert(spec_join(spec_lines(s)) == l0 + seq!['\n'] + spec_join(
                        spec_lines(rest),
                    ));
                    assert(l0 + seq!['\n'] + rest =~= s);
                    if spec_join(spec_lines(rest)) == rest {
                    } else {
                        assert(spec_join(spec_lines(rest)) + seq!['\n'] == rest);
                        assert((l0 + seq!['\n'] + spec_join(spec_lines(rest))) + seq!['\n']
                            =~= l0 + seq!['\n'] + (spec_join(spec_lines(rest)) + seq!['\n']));
                    }
                }
            },
        }
    }
}

/// A nonempty text splits into at least one line.
proof fn lemma_lines_nonempty(s: Seq<char>)
    requires
        s.len() > 0,
    ensures
        spec_lines(s).len() > 0,
{
    match nl_pos(s) {
        Option::None => {},
        Option::Some(p) => {
            lemma_nl_pos_prefix(s, p);
        },
    }
}

/// Reindenting never changes what a text tokenizes to, as long as no
/// token spans a line break and the text holds no carriage returns.
proof fn lemma_tokenize_prettify(s: Seq<char>, tab: Seq<char>, ts: Seq<TokenModel>)
    requires
        all_blank(tab),
        forall|i: int| 0 <= i < s.len() ==> #[trigger] s[i] != '\r',
        spec_tokenize(s) == Some(ts),
        toks_clean(ts),
    ensures
        spec_tokenize(spec_prettify(s, tab)) == Some(ts),
{
    lemma_lines_clean(s);
    lemma_join_of_lines(s);
    let j = spec_join(spec_lines(s));
    assert(spec_tokenize(j) == Some(ts)) by {
        if j != s {
            assert(j + seq!['\n'] == s);
            assert(j + seq!['\n'] + Seq::<char>::empty() =~= s);
            lemma_tokenize_split_nl(j, Seq::<char>::empty(), ts);
            assert(spec_tokenize(Seq::<char>::empty()) == Some(Seq::<TokenModel>::empty()));
            assert(spec_tokenize(j)->Some_0 + Seq::<TokenModel>::empty() =~= spec_tokenize(
                j,
            )->Some_0);
        }
    }
    lemma_tokenize_pretty_lines(spec_lines(s), tab, 0, ts);
}

/// Whether a text holds no carriage return.
pub open spec fn cr_free(s: Seq<char>) -> bool {
    forall|i: int| 0 <= i < s.len() ==> #[trigger] s[i] != '\r'
}

/// Concatenating carriage-return-free texts stays carriage-return-free.
proof fn lemma_cr_free_concat(a: Seq<char>, b: Seq<char>)
    requires
        cr_free(a),
        cr_free(b),
    ensures
        cr_free(a + b),
{
    assert forall|i: int| 0 <= i < (a + b).len() implies #[trigger] (a + b)[i] != '\r' by {
        if i < a.len() {
            assert((a + b)[i] == a[i]);
        } else {
            assert((a + b)[i] == b[i - a.len()]);
        }
    }
}

/// The flat text of a clean value holds no carriage return.
proof fn lemma_flat_cr_free(v: TypedModel, nl: bool)
    requires
        encode_clean(v),
    ensures
        cr_free(spec_flat(v, nl)),
    decreases v, 1int,
{
    if is_scalar_kind(v) {
        lemma_scalar_text_clean(v);
        lemma_flat_scalar_text(v, nl);
        lemma_cr_free_concat(seq!['"'], scalar_text(v));
        lemma_cr_free_concat(seq!['"'] + scalar_text(v), seq!['"']);
    } else {
        match v {
            TypedModel::OptSome(b) => {
                lemma_flat_cr_free(*b, nl);
            },
            TypedModel::Sequence(vs) => {
                lemma_flat_elems_cr_free(vs, 0);
                lemma_cr_free_concat(open_brace(nl), spec_flat_elems(vs, 0));
                lemma_cr_free_concat(open_brace(nl) + spec_flat_elems(vs, 0), close_brace());
            },
            TypedModel::Mapping(ps) => {
                lemma_flat_entries_cr_free(ps);
                lemma_cr_free_concat(open_brace(nl), spec_flat_entries(ps));
                lemma_cr_free_concat(open_brace(nl) + spec_flat_entries(ps), close_brace());
            },
            TypedModel::Struct(fs) => {
                lemma_flat_fields_cr_free(fs);
                lemma_cr_free_concat(open_brace(nl), spec_flat_fields(fs));
                lemma_cr_free_concat(open_brace(nl) + spec_flat_fields(fs), close_brace());
            },
            _ => {},
        }
    }
}

/// One flat entry line of clean parts holds no carriage return.
proof fn lemma_entry_line_cr_free(key: Seq<char>, v: TypedModel, rest: Seq<char>)
    requires
        text_ok(key),
        encode_clean(v),
        cr_free(rest),
    ensures
        cr_free(quoted(key) + seq![' '] + spec_flat(v, true) + entry_nl(v) + rest),
    decreases v,
{
    lemma_flat_cr_free(v, true);
    lemma_cr_free_concat(seq!['"'], key);
    lemma_cr_free_concat(seq!['"'] + key, seq!['"']);
    assert(quoted(key) =~= seq!['"'] + key + seq!['"']);
    lemma_cr_free_concat(quoted(key), seq![' ']);
    lemma_cr_free_concat(quoted(key) + seq![' '], spec_flat(v, true));
    lemma_cr_free_concat(quoted(key) + seq![' '] + spec_flat(v, true), entry_nl(v));
    lemma_cr_free_concat(quoted(key) + seq![' '] + spec_flat(v, true) + entry_nl(v), rest);
}

/// The flat element lines of a clean sequence hold no carriage return.
proof fn lemma_flat_elems_cr_free(vs: Seq<TypedModel>, i: int)
    requires
        elems_clean(vs),
        i >= 0,
    ensures
        cr_free(spec_flat_elems(vs, i)),
    decreases vs, 0int,
{
    if vs.len() > 0 {
        lemma_flat_elems_cr_free(vs.skip(1), i + 1);
        lemma_digits_text_ok(i);
        lemma_entry_line_cr_free(dec_digits(i), vs[0], spec_flat_elems(vs.skip(1), i + 1));
    }
}

/// The flat entry lines of a clean mapping hold no carriage return.
proof fn lemma_flat_entries_cr_free(ps: Seq<(TypedModel, TypedModel)>)
    requires
        entries_clean(ps),
    ensures
        cr_free(spec_flat_entries(ps)),
    decreases ps, 0int,
{
    if ps.len() > 0 {
        lemma_flat_entries_cr_free(ps.skip(1));
        let key = match key_string(ps[0].0) {
            Option::Some(k) => k,
            Option::None => Seq::empty(),
        };
        lemma_entry_line_cr_free(key, ps[0].1, spec_flat_entries(ps.skip(1)));
    }
}

/// The flat field lines of a clean struct hold no carriage return.
proof fn lemma_flat_fields_cr_free(fs: Seq<(Seq<char>, TypedModel)>)
    requires
        fields_clean(fs),
    ensures
        cr_free(spec_flat_fields(fs)),
    decreases fs, 0int,
{
    if fs.len() > 0 {
        lemma_flat_fields_cr_free(fs.skip(1));
        lemma_entry_line_cr_free(fs[0].0, fs[0].1, spec_flat_fields(fs.skip(1)));
    }
}

/// Concatenating clean token streams stays clean.
proof fn lemma_toks_clean_concat(a: Seq<TokenModel>, b: Seq<TokenModel>)
    requires
        toks_clean(a),
        toks_clean(b),
    ensures
        toks_clean(a + b),
{
    assert forall|i: int| 0 <= i < (a + b).len() implies tok_clean(#[trigger] (a + b)[i]) by {
        if i < a.len() {
            assert((a + b)[i] == a[i]);
        } else {
            assert((a + b)[i] == b[i - a.len()]);
        }
    }
}

/// The token stream of a clean value's tree holds no line break in any
/// quoted content.
proof fn lemma_value_toks_clean(v: TypedModel)
    requires
        encode_clean(v),
    ensures
        toks_clean(value_toks(tree_of(v))),
    decreases v, 1int,
{
    if is_scalar_kind(v) {
        lemma_scalar_text_clean(v);
        lemma_scalar_kind_tree(v);
        assert(value_toks(tree_of(v)) == seq![TokenModel::Quoted(scalar_text(v))]);
        assert forall|i: int| 0 <= i < 1 implies tok_clean(
            #[trigger] seq![TokenModel::Quoted(scalar_text(v))][i],
        ) by {
        }
    } else {
        match v {
            TypedModel::OptSome(b) => {
                lemma_value_toks_clean(*b);
            },
            TypedModel::Sequence(vs) => {
                lemma_children_toks_clean_elems(vs, 0);
                lemma_toks_clean_concat(seq![TokenModel::Open], children_toks(elems_tree(vs, 0)));
                lemma_toks_clean_concat(
                    seq![TokenModel::Open] + children_toks(elems_tree(vs, 0)),
                    seq![TokenModel::Close],
                );
            },
            TypedModel::Mapping(ps) => {
                lemma_children_toks_clean_entries(ps);
                lemma_toks_clean_concat(seq![TokenModel::Open], children_toks(entries_tree(ps)));
                lemma_toks_clean_concat(
                    seq![TokenModel::Open] + children_toks(entries_tree(ps)),
                    seq![TokenModel::Close],
                );
            },
            TypedModel::Struct(fs) => {
                lemma_children_toks_clean_fields(fs);
                lemma_toks_clean_concat(seq![TokenModel::Open], children_toks(fields_tree(fs)));
                lemma_toks_clean_concat(
                    seq![TokenModel::Open] + children_toks(fields_tree(fs)),
                    seq![TokenModel::Close],
                );
            },
            _ => {},
        }
    }
}

/// The encoded children tokens of a clean sequence are clean.
proof fn lemma_children_toks_clean_elems(vs: Seq<TypedModel>, i: int)
    requires
        elems_clean(vs),
        i >= 0,
    ensures
        toks_clean(children_toks(elems_tree(vs, i))),
    decreases vs, 0int,
{
    if vs.len() == 0 {
        assert(children_toks(elems_tree(vs, i)) =~= Seq::<TokenModel>::empty());
    } else {
        lemma_children_toks_clean_elems(vs.skip(1), i + 1);
        lemma_value_toks_clean(vs[0]);
        lemma_digits_text_ok(i);
        let et = elems_tree(vs, i);
        assert(et[0] == KeyValueModel { key: dec_digits(i), value: tree_of(vs[0]) });
        assert(et.skip(1) =~= elems_tree(vs.skip(1), i + 1));
        lemma_toks_clean_concat(seq![TokenModel::Quoted(dec_digits(i))], value_toks(tree_of(vs[0])));
        lemma_toks_clean_concat(
            seq![TokenModel::Quoted(dec_digits(i))] + value_toks(tree_of(vs[0])),
            children_toks(elems_tree(vs.skip(1), i + 1)),
        );
    }
}

/// The encoded children tokens of a clean mapping are clean.
proof fn lemma_children_toks_clean_entries(ps: Seq<(TypedModel, TypedModel)>)
    requires
        entries_clean(ps),
    ensures
        toks_clean(children_toks(entries_tree(ps))),
    decreases ps, 0int,
{
    if ps.len() == 0 {
        assert(children_toks(entries_tree(ps)) =~= Seq::<TokenModel>::empty());
    } else {
        lemma_children_toks_clean_entries(ps.skip(1));
        lemma_value_toks_clean(ps[0].1);
        let key = match key_string(ps[0].0) {
            Option::Some(k) => k,
            Option::None => Seq::empty(),
        };
        let et = entries_tree(ps);
        assert(et[0] == KeyValueModel { key: key, value: tree_of(ps[0].1) });
        assert(et.skip(1) =~= entries_tree(ps.skip(1)));
        lemma_toks_clean_concat(seq![TokenModel::Quoted(key)], value_toks(tree_of(ps[0].1)));
        lemma_toks_clean_concat(
            seq![TokenModel::Quoted(key)] + value_toks(tree_of(ps[0].1)),
            children_toks(entries_tree(ps.skip(1))),
        );
    }
}

/// The encoded children tokens of a clean struct are clean.
proof fn lemma_children_toks_clean_fields(fs: Seq<(Seq<char>, TypedModel)>)
    requires
        fields_clean(fs),
    ensures
        toks_clean(children_toks(fields_tree(fs))),
    decreases fs, 0int,
{
    if fs.len() == 0 {
        assert(children_toks(fields_tree(fs)) =~= Seq::<TokenModel>::empty());
    } else {
        lemma_children_toks_clean_fields(fs.skip(1));
        lemma_value_toks_clean(fs[0].1);
        let et = fields_tree(fs);
        assert(et[0] == KeyValueModel { key: fs[0].0, value: tree_of(fs[0].1) });
        assert(et.skip(1) =~= fields_tree(fs.skip(1)));
        lemma_toks_clean_concat(seq![TokenModel::Quoted(fs[0].0)], value_toks(tree_of(fs[0].1)));
        lemma_toks_clean_concat(
            seq![TokenModel::Quoted(fs[0].0)] + value_toks(tree_of(fs[0].1)),
            children_toks(fields_tree(fs.skip(1))),
        );
    }
}

/// The round trip: a conforming, round-trippable, clean compound value
/// decoded back from its bare encoded document is itself. Its strings hold
/// no quote, line break or carriage return; its sequences hold at most ten
/// elements; its options wrap nonempty scalars; its struct field names are
/// distinct.
pub proof fn lemma_round_trip(sh: ShapeModel, v: TypedModel)
    requires
        shape_matches(sh, v),
        round_trippable(v),
        encode_clean(v),
        !is_scalar_kind(v),
    ensures
        spec_from_str(crate::serializer::spec_to_file(v), sh) == Ok::<TypedModel, ErrorKind>(v),
{
    let flat = spec_flat(v, false);
    let children = tree_of(v)->Section_0;
    let mid = match v {
        TypedModel::Sequence(vs) => spec_flat_elems(vs, 0),
        TypedModel::Mapping(ps) => spec_flat_entries(ps),
        TypedModel::Struct(fs) => spec_flat_fields(fs),
        _ => Seq::empty(),
    };
    assert(flat == open_brace(false) + mid + close_brace());
    assert(flat.subrange(2, flat.len() - 2) =~= mid);
    let ts = children_toks(children);
    assert(spec_tokenize(mid) == Some(ts)) by {
        match v {
            TypedModel::Sequence(vs) => {
                lemma_tokenize_flat_elems(vs, 0);
            },
            TypedModel::Mapping(ps) => {
                lemma_tokenize_flat_entries(ps);
            },
            TypedModel::Struct(fs) => {
                lemma_tokenize_flat_fields(fs);
            },
            _ => {},
        }
    }
    assert(toks_clean(ts)) by {
        match v {
            TypedModel::Sequence(vs) => {
                lemma_children_toks_clean_elems(vs, 0);
            },
            TypedModel::Mapping(ps) => {
                lemma_children_toks_clean_entries(ps);
            },
            TypedModel::Struct(fs) => {
                lemma_children_toks_clean_fields(fs);
            },
            _ => {},
        }
    }
    assert(cr_free(mid)) by {
        match v {
            TypedModel::Sequence(vs) => {
                lemma_flat_elems_cr_free(vs, 0);
            },
            TypedModel::Mapping(ps) => {
                lemma_flat_entries_cr_free(ps);
            },
            TypedModel::Struct(fs) => {
                lemma_flat_fields_cr_free(fs);
            },
            _ => {},
        }
    }
    assert(all_blank(crate::serializer::default_tab())) by {
        assert(crate::serializer::default_tab()[0] == ' ');
        assert(crate::serializer::default_tab()[1] == ' ');
    }
    lemma_tokenize_prettify(mid, crate::serializer::default_tab(), ts);
    let pretty = spec_prettify(mid, crate::serializer::default_tab());
    assert(crate::serializer::spec_to_file(v) == pretty);
    assert(ts.subrange(0, ts.len() as int) =~= ts);
    lemma_parse_items_of(ts, 0, children);
    assert(spec_parse_input(pretty) == Some(
        crate::kv::KeyValueFileModel { imports: Seq::empty(), kvs: children },
    ));
    lemma_tree_round_trip(sh, v);
    assert(tree_of(v) == ValueModel::Section(children));
}

} // verus!
