//! The encoder: a typed value emitted depth-first as flat brace-delimited
//! text, and a line-by-line indentation formatter.

use vstd::prelude::*;

use crate::error::{Error, ErrorKind};
use crate::shape::{
    lemma_typed_fields_view, lemma_typed_pairs_view, lemma_typed_seq_view, typed_fields_view,
    typed_pairs_view, typed_seq_view, TypedModel, TypedValue,
};
use crate::text::{
    chars_to_string, dec_digits, dec_int, i64_to_dec_chars, str_to_chars, u64_to_dec_chars,
};

verus! {

broadcast use vstd::std_specs::vec::group_vec_axioms, vstd::seq::group_seq_axioms;

/// `s` wrapped in quote characters.
pub open spec fn quoted(s: Seq<char>) -> Seq<char> {
    seq!['"'] + s + seq!['"']
}

/// Whether appending to `s` must first break the line: it is nonempty and
/// does not already end in a newline.
pub open spec fn nl_needed(s: Seq<char>) -> bool {
    s.len() > 0 && s.last() != '\n'
}

/// The text opening a section: a newline when one is needed, the brace, and
/// a line break.
pub open spec fn open_brace(nl: bool) -> Seq<char> {
    if nl {
        seq!['\n', '{', '\n']
    } else {
        seq!['{', '\n']
    }
}

/// The text closing a section.
pub open spec fn close_brace() -> Seq<char> {
    seq!['}', '\n']
}

/// Whether the flat text of `v` ends in a newline: exactly the compound
/// values, whose sections close with one.
pub open spec fn ends_nl(v: TypedModel) -> bool
    decreases v,
{
    match v {
        TypedModel::OptSome(b) => ends_nl(*b),
        TypedModel::Sequence(_) => true,
        TypedModel::Mapping(_) => true,
        TypedModel::Struct(_) => true,
        _ => false,
    }
}

/// The line break emitted after an entry's value: none when the value's own
/// text already ends in one.
pub open spec fn entry_nl(v: TypedModel) -> Seq<char> {
    if ends_nl(v) {
        Seq::empty()
    } else {
        seq!['\n']
    }
}

/// The canonical string a mapping key coerces to: strings, characters and
/// enum names verbatim, numbers in decimal, booleans as `1`/`0`. Compound
/// values, units and options make no key.
pub open spec fn key_string(k: TypedModel) -> Option<Seq<char>> {
    match k {
        TypedModel::Str(s) => Some(s),
        TypedModel::Char(c) => Some(seq![c]),
        TypedModel::Bool(b) => Some(if b { seq!['1'] } else { seq!['0'] }),
        TypedModel::Unsigned(n) => Some(dec_digits(n as int)),
        TypedModel::Signed(n) => Some(dec_int(n as int)),
        TypedModel::Enum(n) => Some(n),
        _ => None,
    }
}

/// Whether `v` can be encoded: every mapping key in it coerces to a string.
pub open spec fn encodable(v: TypedModel) -> bool
    decreases v, 1int,
{
    match v {
        TypedModel::OptSome(b) => encodable(*b),
        TypedModel::Sequence(vs) => all_encodable(vs),
        TypedModel::Mapping(ps) => all_entries_encodable(ps),
        TypedModel::Struct(fs) => all_fields_encodable(fs),
        _ => true,
    }
}

/// Whether every element of `vs` is encodable.
pub open spec fn all_encodable(vs: Seq<TypedModel>) -> bool
    decreases vs, 0int,
{
    forall|i: int| 0 <= i < vs.len() ==> encodable(#[trigger] vs[i])
}

/// Whether every entry of `ps` has a coercible key and an encodable value.
pub open spec fn all_entries_encodable(ps: Seq<(TypedModel, TypedModel)>) -> bool
    decreases ps, 0int,
{
    forall|i: int| 0 <= i < ps.len() ==> key_string(#[trigger] ps[i].0) is Some && encodable(
        ps[i].1,
    )
}

/// Whether every field value of `fs` is encodable.
pub open spec fn all_fields_encodable(fs: Seq<(Seq<char>, TypedModel)>) -> bool
    decreases fs, 0int,
{
    forall|i: int| 0 <= i < fs.len() ==> encodable(#[trigger] fs[i].1)
}

/// The flat text of `v`. `nl` says whether the output so far needs a line
/// break before a brace opens.
pub open spec fn spec_flat(v: TypedModel, nl: bool) -> Seq<char>
    decreases v, 1int,
{
    match v {
        TypedModel::Bool(b) => quoted(if b { seq!['1'] } else { seq!['0'] }),
        TypedModel::Unsigned(n) => quoted(dec_digits(n as int)),
        TypedModel::Signed(n) => quoted(dec_int(n as int)),
        TypedModel::Char(c) => quoted(seq![c]),
        TypedModel::Str(s) => quoted(s),
        TypedModel::Unit => quoted(Seq::empty()),
        TypedModel::OptNone => quoted(Seq::empty()),
        TypedModel::OptSome(b) => spec_flat(*b, nl),
        TypedModel::Enum(n) => quoted(n),
        TypedModel::Sequence(vs) => open_brace(nl) + spec_flat_elems(vs, 0) + close_brace(),
        TypedModel::Mapping(ps) => open_brace(nl) + spec_flat_entries(ps) + close_brace(),
        TypedModel::Struct(fs) => open_brace(nl) + spec_flat_fields(fs) + close_brace(),
    }
}

/// The flat text of sequence elements, keyed by their positions from `i`
/// on, one entry line each.
pub open spec fn spec_flat_elems(vs: Seq<TypedModel>, i: int) -> Seq<char>
    decreases vs, 0int,
{
    if vs.len() == 0 {
        Seq::empty()
    } else {
        quoted(dec_digits(i)) + seq![' '] + spec_flat(vs[0], true) + entry_nl(vs[0])
            + spec_flat_elems(vs.skip(1), i + 1)
    }
}

/// The flat text of mapping entries, one entry line each.
pub open spec fn spec_flat_entries(ps: Seq<(TypedModel, TypedModel)>) -> Seq<char>
    decreases ps, 0int,
{
    if ps.len() == 0 {
        Seq::empty()
    } else {
        quoted(
            match key_string(ps[0].0) {
                Option::Some(k) => k,
                Option::None => Seq::empty(),
            },
        ) + seq![' '] + spec_flat(ps[0].1, true) + entry_nl(ps[0].1) + spec_flat_entries(
            ps.skip(1),
        )
    }
}

/// The flat text of struct fields, one entry line each.
pub open spec fn spec_flat_fields(fs: Seq<(Seq<char>, TypedModel)>) -> Seq<char>
    decreases fs, 0int,
{
    if fs.len() == 0 {
        Seq::empty()
    } else {
        quoted(fs[0].0) + seq![' '] + spec_flat(fs[0].1, true) + entry_nl(fs[0].1)
            + spec_flat_fields(fs.skip(1))
    }
}

/// The position of the first line break of `s`.
pub open spec fn nl_pos(s: Seq<char>) -> Option<int>
    decreases s.len(),
{
    if s.len() == 0 {
        None
    } else if s[0] == '\n' {
        Some(0int)
    } else {
        match nl_pos(s.skip(1)) {
            Option::None => None,
            Option::Some(i) => Some(i + 1),
        }
    }
}

/// `l` with one trailing carriage return removed, as line splitting does.
pub open spec fn strip_cr(l: Seq<char>) -> Seq<char> {
    if l.len() > 0 && l.last() == '\r' {
        l.drop_last()
    } else {
        l
    }
}

/// The lines of `s`: split at each line break, one trailing carriage
/// return removed per line, and no final empty line when the text ends with
/// a break.
pub open spec fn spec_lines(s: Seq<char>) -> Seq<Seq<char>>
    decreases s.len(),
{
    if s.len() == 0 {
        Seq::empty()
    } else {
        match nl_pos(s) {
            Option::None => seq![strip_cr(s)],
            Option::Some(i) => if 0 <= i < s.len() {
                seq![strip_cr(s.take(i))] + spec_lines(s.skip(i + 1))
            } else {
                Seq::empty()
            },
        }
    }
}

/// The lines joined with single line breaks.
pub open spec fn spec_join(ls: Seq<Seq<char>>) -> Seq<char>
    decreases ls.len(),
{
    if ls.len() == 0 {
        Seq::empty()
    } else if ls.len() == 1 {
        ls[0]
    } else {
        ls[0] + seq!['\n'] + spec_join(ls.skip(1))
    }
}

/// `tab` repeated `n` times.
pub open spec fn spec_repeat(tab: Seq<char>, n: int) -> Seq<char>
    decreases n,
{
    if n <= 0 {
        Seq::empty()
    } else {
        spec_repeat(tab, n - 1) + tab
    }
}

/// How many leading blanks or tabs `l` carries.
pub open spec fn indent_len(l: Seq<char>) -> int
    decreases l.len(),
{
    if l.len() > 0 && (l[0] == ' ' || l[0] == '\t') {
        1 + indent_len(l.skip(1))
    } else {
        0
    }
}

/// `l` without its leading blanks and tabs.
pub open spec fn strip_indent(l: Seq<char>) -> Seq<char> {
    l.skip(indent_len(l))
}

/// A line's leading blanks are no longer than the line.
pub proof fn lemma_indent_len(l: Seq<char>)
    ensures
        0 <= indent_len(l) <= l.len(),
        forall|k: int| 0 <= k < indent_len(l) ==> l[k] == ' ' || l[k] == '\t',
        indent_len(l) < l.len() ==> !(l[indent_len(l)] == ' ' || l[indent_len(l)] == '\t'),
    decreases l.len(),
{
    if l.len() > 0 && (l[0] == ' ' || l[0] == '\t') {
        lemma_indent_len(l.skip(1));
        assert forall|k: int| 0 <= k < indent_len(l) implies l[k] == ' ' || l[k] == '\t' by {
            if k > 0 {
                assert(l.skip(1)[k - 1] == l[k]);
            }
        }
        if indent_len(l) < l.len() {
            assert(l.skip(1)[indent_len(l) - 1] == l[indent_len(l)]);
        }
    }
}

/// Whether a line ends with a closing brace.
pub open spec fn line_closes(l: Seq<char>) -> bool {
    l.len() > 0 && l.last() == '}'
}

/// Whether a line ends with an opening brace.
pub open spec fn line_opens(l: Seq<char>) -> bool {
    l.len() > 0 && l.last() == '{'
}

/// The reindented lines: walking at depth `d`, a line ending in a closing
/// brace first steps the depth down, each line is prefixed with the tab at
/// the current depth (never below zero) in place of its old indentation,
/// and a line ending in an opening brace then steps the depth up.
pub open spec fn spec_pretty_lines(ls: Seq<Seq<char>>, tab: Seq<char>, d: int) -> Seq<Seq<char>>
    decreases ls.len(),
{
    if ls.len() == 0 {
        Seq::empty()
    } else {
        let l = ls[0];
        let d1 = if line_closes(l) {
            d - 1
        } else {
            d
        };
        let line = spec_repeat(tab, if d1 < 0 { 0 } else { d1 }) + strip_indent(l);
        let d2 = if line_opens(l) {
            d1 + 1
        } else {
            d1
        };
        seq![line] + spec_pretty_lines(ls.skip(1), tab, d2)
    }
}

/// The whole reindenting pass over a text.
pub open spec fn spec_prettify(s: Seq<char>, tab: Seq<char>) -> Seq<char> {
    spec_join(spec_pretty_lines(spec_lines(s), tab, 0))
}

/// The text `try_newline` leaves: a line break appended when one was
/// needed.
pub open spec fn spec_try_newline(s: Seq<char>) -> Seq<char> {
    if nl_needed(s) {
        s + seq!['\n']
    } else {
        s
    }
}

/// The two-blank indent unit the default formatting uses.
pub open spec fn default_tab() -> Seq<char> {
    seq![' ', ' ']
}

/// The flat text of a value is never empty, and ends in a newline exactly
/// when `ends_nl` says so.
pub proof fn lemma_flat_last(v: TypedModel, nl: bool)
    ensures
        spec_flat(v, nl).len() > 0,
        (spec_flat(v, nl).last() == '\n') == ends_nl(v),
    decreases v,
{
    match v {
        TypedModel::OptSome(b) => {
            lemma_flat_last(*b, nl);
        },
        _ => {},
    }
}

/// Where the first line break of `s` lies, `nl_pos` finds it.
proof fn lemma_nl_pos_found(s: Seq<char>, j: int)
    requires
        0 <= j < s.len(),
        s[j] == '\n',
        forall|k: int| 0 <= k < j ==> s[k] != '\n',
    ensures
        nl_pos(s) == Some(j),
    decreases j,
{
    if j > 0 {
        lemma_nl_pos_found(s.skip(1), j - 1);
    }
}

/// Where `s` has no line break, `nl_pos` finds none.
proof fn lemma_nl_pos_none(s: Seq<char>)
    requires
        forall|k: int| 0 <= k < s.len() ==> s[k] != '\n',
    ensures
        nl_pos(s) == Option::<int>::None,
    decreases s.len(),
{
    if s.len() > 0 {
        lemma_nl_pos_none(s.skip(1));
    }
}

/// The models of a list of lines.
pub open spec fn lines_view(ls: Seq<Vec<char>>) -> Seq<Seq<char>> {
    Seq::new(ls.len(), |i: int| ls[i]@)
}

/// Split `s` into lines as `spec_lines` does.
fn split_lines(s: &Vec<char>) -> (r: Vec<Vec<char>>)
    ensures
        lines_view(r@) == spec_lines(s@),
{
    let mut acc: Vec<Vec<char>> = Vec::new();
    let mut cur: Vec<char> = Vec::new();
    let mut i: usize = 0;
    proof {
        assert(cur@ + s@.skip(0) =~= s@);
        assert(lines_view(acc@) + spec_lines(s@) =~= spec_lines(s@));
    }
    while i < s.len()
        invariant
            i <= s@.len(),
            forall|k: int| 0 <= k < cur@.len() ==> cur@[k] != '\n',
            spec_lines(s@) == lines_view(acc@) + spec_lines(cur@ + s@.skip(i as int)),
        decreases s@.len() - i,
    {
        let ghost rem = cur@ + s@.skip(i as int);
        let ghost old_cur = cur@;
        let c = s[i];
        proof {
            assert(rem[old_cur.len() as int] == c);
        }
        if c == '\n' {
            let mut line = cur;
            cur = Vec::new();
            if line.len() > 0 && line[line.len() - 1] == '\r' {
                line.pop();
            }
            proof {
                lemma_nl_pos_found(rem, old_cur.len() as int);
                assert(rem.take(old_cur.len() as int) =~= old_cur);
                assert(line@ == strip_cr(old_cur)) by {
                    if old_cur.len() > 0 && old_cur.last() == '\r' {
                        assert(line@ =~= old_cur.drop_last());
                    }
                }
                assert(rem.skip(old_cur.len() as int + 1) =~= cur@ + s@.skip(i + 1));
                assert(spec_lines(rem) == seq![line@] + spec_lines(cur@ + s@.skip(i + 1)));
                assert(lines_view(acc@.push(line)) =~= lines_view(acc@) + seq![line@]);
                assert(lines_view(acc@) + (seq![line@] + spec_lines(cur@ + s@.skip(i + 1)))
                    =~= (lines_view(acc@) + seq![line@]) + spec_lines(cur@ + s@.skip(i + 1)));
            }
            acc.push(line);
            i = i + 1;
        } else {
            proof {
                assert(old_cur.push(c) + s@.skip(i + 1) =~= rem);
            }
            cur.push(c);
            i = i + 1;
        }
    }
    proof {
        assert(cur@ + s@.skip(i as int) =~= cur@);
    }
    if cur.len() > 0 {
        let ghost old_cur = cur@;
        let mut line = cur;
        if line.len() > 0 && line[line.len() - 1] == '\r' {
            line.pop();
        }
        proof {
            lemma_nl_pos_none(old_cur);
            assert(line@ == strip_cr(old_cur)) by {
                if old_cur.len() > 0 && old_cur.last() == '\r' {
                    assert(line@ =~= old_cur.drop_last());
                }
            }
            assert(spec_lines(old_cur) == seq![line@]);
            assert(lines_view(acc@.push(line)) =~= lines_view(acc@) + seq![line@]);
        }
        acc.push(line);
    } else {
        proof {
            assert(lines_view(acc@) + spec_lines(cur@) =~= lines_view(acc@));
        }
    }
    acc
}

/// Joining one more line appends a break and the line, except to an empty
/// list.
proof fn lemma_join_push(ls: Seq<Seq<char>>, l: Seq<char>)
    ensures
        spec_join(ls.push(l)) == if ls.len() == 0 {
            l
        } else {
            spec_join(ls) + seq!['\n'] + l
        },
    decreases ls.len(),
{
    if ls.len() == 0 {
        assert(ls.push(l)[0] == l);
    } else if ls.len() == 1 {
        assert(ls.push(l)[0] == ls[0]);
        assert(ls.push(l).skip(1) =~= seq![l]);
        assert(spec_join(seq![l]) == l);
    } else {
        lemma_join_push(ls.skip(1), l);
        assert(ls.push(l).skip(1) =~= ls.skip(1).push(l));
        assert(ls.push(l)[0] == ls[0]);
        assert(ls[0] + seq!['\n'] + (spec_join(ls.skip(1)) + seq!['\n'] + l) =~= (ls[0]
            + seq!['\n'] + spec_join(ls.skip(1))) + seq!['\n'] + l);
    }
}

/// A line whose first `st` characters are blanks or tabs, and whose next
/// is neither, has exactly that indentation.
proof fn lemma_indent_len_eq(l: Seq<char>, st: int)
    requires
        0 <= st <= l.len(),
        forall|k: int| 0 <= k < st ==> l[k] == ' ' || l[k] == '\t',
        st < l.len() ==> !(l[st] == ' ' || l[st] == '\t'),
    ensures
        indent_len(l) == st,
    decreases st,
{
    if st > 0 {
        assert(l[0] == ' ' || l[0] == '\t');
        assert forall|k: int| 0 <= k < st - 1 implies l.skip(1)[k] == ' ' || l.skip(1)[k]
            == '\t' by {
            assert(l.skip(1)[k] == l[k + 1]);
        }
        if st - 1 < l.skip(1).len() {
            assert(l.skip(1)[st - 1] == l[st]);
        }
        lemma_indent_len_eq(l.skip(1), st - 1);
    }
}

/// Append `tab` to `out` `n` times.
fn append_repeat(out: &mut Vec<char>, tab: &Vec<char>, n: usize)
    ensures
        final(out)@ == old(out)@ + spec_repeat(tab@, n as int),
{
    let mut k: usize = 0;
    proof {
        assert(old(out)@ + spec_repeat(tab@, 0) =~= old(out)@);
    }
    while k < n
        invariant
            k <= n,
            out@ == old(out)@ + spec_repeat(tab@, k as int),
        decreases n - k,
    {
        let mut j: usize = 0;
        while j < tab.len()
            invariant
                j <= tab@.len(),
                out@ == old(out)@ + spec_repeat(tab@, k as int) + tab@.take(j as int),
            decreases tab@.len() - j,
        {
            out.push(tab[j]);
            proof {
                assert(out@ =~= old(out)@ + spec_repeat(tab@, k as int) + tab@.take(j + 1));
            }
            j = j + 1;
        }
        proof {
            assert(tab@.take(tab@.len() as int) =~= tab@);
            assert(out@ =~= old(out)@ + spec_repeat(tab@, k + 1));
        }
        k = k + 1;
    }
}

/// The serializer: depth-first emission into a flat text buffer, and the
/// formatting passes over it.
#[derive(Debug)]
pub struct Serializer {
    seq_index: usize,
    output: Vec<char>,
}

impl View for Serializer {
    type V = Seq<char>;

    /// The text accumulated so far.
    closed spec fn view(&self) -> Seq<char> {
        self.output@
    }
}

impl Serializer {
    /// An empty serializer.
    pub fn new() -> (r: Serializer)
        ensures
            r@ == Seq::<char>::empty(),
    {
        let r = Serializer { seq_index: 0, output: Vec::new() };
        proof {
            assert(r@ =~= Seq::<char>::empty());
        }
        r
    }

    /// Break the line unless the output is empty or already ends with a
    /// break.
    pub fn try_newline(&mut self)
        ensures
            final(self)@ == spec_try_newline(old(self)@),
    {
        if self.output.len() > 0 && self.output[self.output.len() - 1] != '\n' {
            self.output.push('\n');
        }
    }

    /// Strip the first and last two characters: the outermost synthetic
    /// brace pair, each with its line break.
    pub fn trim(&mut self)
        requires
            old(self)@.len() >= 4,
        ensures
            final(self)@ == old(self)@.subrange(2, old(self)@.len() - 2),
    {
        let mut out: Vec<char> = Vec::new();
        let mut k: usize = 2;
        proof {
            assert(out@ =~= old(self)@.subrange(2, 2));
        }
        while k < self.output.len() - 2
            invariant
                self.output@ == old(self)@,
                self.output@.len() >= 4,
                2 <= k <= self.output@.len() - 2,
                out@ == old(self)@.subrange(2, k as int),
            decreases self.output@.len() - k,
        {
            out.push(self.output[k]);
            proof {
                assert(out@ =~= old(self)@.subrange(2, k + 1));
            }
            k = k + 1;
        }
        self.output = out;
    }

    /// Reindent the output with the default two-blank unit.
    pub fn prettify(&mut self)
        ensures
            final(self)@ == spec_prettify(old(self)@, default_tab()),
    {
        let tab = "  ";
        proof {
            reveal_strlit("  ");
            assert(tab@ =~= default_tab());
        }
        self.prettify_with_tab(tab);
    }

    /// Reindent the output: line by line, the depth steps down before a
    /// line ending in a closing brace, the line's old indentation is
    /// replaced by `tab` repeated per the depth, and the depth steps up
    /// after a line ending in an opening brace.
    pub fn prettify_with_tab(&mut self, tab: &str)
        ensures
            final(self)@ == spec_prettify(old(self)@, tab@),
    {
        let tabv = str_to_chars(tab);
        let lines = split_lines(&self.output);
        let ghost lv = lines_view(lines@);
        let mut out: Vec<char> = Vec::new();
        let ghost mut done: Seq<Seq<char>> = Seq::empty();
        let mut d: i128 = 0;
        let mut idx: usize = 0;
        proof {
            assert(lv.skip(0) =~= lv);
            assert(done + spec_pretty_lines(lv, tabv@, 0) =~= spec_pretty_lines(lv, tabv@, 0));
        }
        while idx < lines.len()
            invariant
                lv == lines_view(lines@),
                tabv@ == tab@,
                idx <= lv.len(),
                -(idx as int) <= d <= idx as int,
                done.len() == idx,
                spec_pretty_lines(lv, tabv@, 0) == done + spec_pretty_lines(
                    lv.skip(idx as int),
                    tabv@,
                    d as int,
                ),
                out@ == spec_join(done),
            decreases lv.len() - idx,
        {
            let l = &lines[idx];
            let ghost lsq = l@;
            proof {
                assert(lv.skip(idx as int)[0] == lv[idx as int]);
                assert(lv[idx as int] == lsq);
            }
            let closes = l.len() > 0 && l[l.len() - 1] == '}';
            let opens = l.len() > 0 && l[l.len() - 1] == '{';
            let d1: i128 = if closes {
                d - 1
            } else {
                d
            };
            if idx > 0 {
                out.push('\n');
            }
            let m: i128 = if d1 < 0 {
                0
            } else {
                d1
            };
            let ghost before_line = out@;
            append_repeat(&mut out, &tabv, m as usize);
            let mut st: usize = 0;
            while st < l.len() && (l[st] == ' ' || l[st] == '\t')
                invariant
                    lsq == l@,
                    st <= lsq.len(),
                    forall|k: int| 0 <= k < st ==> lsq[k] == ' ' || lsq[k] == '\t',
                decreases lsq.len() - st,
            {
                st = st + 1;
            }
            proof {
                lemma_indent_len_eq(lsq, st as int);
            }
            let mut k = st;
            proof {
                assert(out@ =~= before_line + spec_repeat(tabv@, m as int) + lsq.subrange(
                    st as int,
                    st as int,
                ));
            }
            while k < l.len()
                invariant
                    lsq == l@,
                    st <= k <= lsq.len(),
                    out@ == before_line + spec_repeat(tabv@, m as int) + lsq.subrange(
                        st as int,
                        k as int,
                    ),
                decreases lsq.len() - k,
            {
                out.push(l[k]);
                proof {
                    assert(out@ =~= before_line + spec_repeat(tabv@, m as int) + lsq.subrange(
                        st as int,
                        k + 1,
                    ));
                }
                k = k + 1;
            }
            let d2: i128 = if opens {
                d1 + 1
            } else {
                d1
            };
            let ghost pline = spec_repeat(tabv@, if (d1 as int) < 0 {
                0int
            } else {
                d1 as int
            }) + strip_indent(lsq);
            proof {
                assert(lsq.subrange(st as int, lsq.len() as int) =~= strip_indent(lsq));
                assert(out@ =~= before_line + pline);
                assert(spec_pretty_lines(lv.skip(idx as int), tabv@, d as int) == seq![pline]
                    + spec_pretty_lines(lv.skip(idx + 1), tabv@, d2 as int)) by {
                    assert(lv.skip(idx as int).skip(1) =~= lv.skip(idx + 1));
                }
                assert(done + (seq![pline] + spec_pretty_lines(lv.skip(idx + 1), tabv@, d2 as int))
                    =~= done.push(pline) + spec_pretty_lines(lv.skip(idx + 1), tabv@, d2 as int));
                lemma_join_push(done, pline);
                if idx > 0 {
                    assert(before_line =~= spec_join(done) + seq!['\n']);
                    assert(out@ =~= spec_join(done) + seq!['\n'] + pline);
                } else {
                    assert(done.len() == 0);
                    assert(before_line =~= Seq::<char>::empty());
                    assert(out@ =~= pline);
                }
                assert(out@ == spec_join(done.push(pline)));
            }
            proof {
                done = done.push(pline);
            }
            d = d2;
            idx = idx + 1;
        }
        proof {
            assert(lv.skip(idx as int) =~= Seq::<Seq<char>>::empty());
            assert(done + Seq::<Seq<char>>::empty() =~= done);
        }
        self.output = out;
    }
}

/// The canonical key text of `k`, as `key_string` names it.
fn key_chars(k: &TypedValue) -> (r: Option<Vec<char>>)
    ensures
        match r {
            Option::Some(cs) => key_string(k@) == Some(cs@),
            Option::None => key_string(k@) is None,
        },
{
    match k {
        TypedValue::Str(s) => Some(str_to_chars(s.as_str())),
        TypedValue::Char(c) => {
            let mut v: Vec<char> = Vec::new();
            v.push(*c);
            proof {
                assert(v@ =~= seq![*c]);
            }
            Some(v)
        },
        TypedValue::Bool(b) => {
            let mut v: Vec<char> = Vec::new();
            if *b {
                v.push('1');
            } else {
                v.push('0');
            }
            proof {
                assert(v@ =~= (if *b { seq!['1'] } else { seq!['0'] }));
            }
            Some(v)
        },
        TypedValue::Unsigned(n) => Some(u64_to_dec_chars(*n)),
        TypedValue::Signed(n) => Some(i64_to_dec_chars(*n)),
        TypedValue::Enum(n) => Some(str_to_chars(n.as_str())),
        _ => None,
    }
}

impl Serializer {
    /// Append one character.
    fn push_char(&mut self, c: char)
        ensures
            final(self)@ == old(self)@ + seq![c],
    {
        self.output.push(c);
        proof {
            assert(self@ =~= old(self)@ + seq![c]);
        }
    }

    /// Append `content` wrapped in quotes.
    fn emit_quoted(&mut self, content: &Vec<char>)
        ensures
            final(self)@ == old(self)@ + quoted(content@),
    {
        self.output.push('"');
        let mut k: usize = 0;
        while k < content.len()
            invariant
                k <= content@.len(),
                self@ == old(self)@ + seq!['"'] + content@.take(k as int),
            decreases content@.len() - k,
        {
            self.output.push(content[k]);
            proof {
                assert(self@ =~= old(self)@ + seq!['"'] + content@.take(k + 1));
            }
            k = k + 1;
        }
        self.output.push('"');
        proof {
            assert(content@.take(content@.len() as int) =~= content@);
            assert(self@ =~= old(self)@ + quoted(content@));
        }
    }

    /// Emit the flat text of `v`, scalars as quoted strings and compound
    /// values as brace-delimited sections. Fails exactly when some mapping
    /// key in `v` coerces to no string; nothing is promised of the buffer
    /// then.
    #[verifier::rlimit(60)]
    fn emit_value(&mut self, v: &TypedValue) -> (r: Result<(), Error>)
        ensures
            match r {
                Ok(()) => encodable(v@) && final(self)@ == old(self)@ + spec_flat(
                    v@,
                    nl_needed(old(self)@),
                ),
                Err(e) => !encodable(v@) && e.kind() == ErrorKind::Custom,
            },
        decreases v,
    {
        let ghost base = self@;
        let ghost nl0 = nl_needed(self@);
        match v {
            TypedValue::Bool(b) => {
                self.push_char('"');
                self.push_char(if *b { '1' } else { '0' });
                self.push_char('"');
                proof {
                    assert(self@ =~= base + spec_flat(v@, nl0));
                }
                Ok(())
            },
            TypedValue::Unsigned(n) => {
                let d = u64_to_dec_chars(*n);
                self.emit_quoted(&d);
                Ok(())
            },
            TypedValue::Signed(n) => {
                let d = i64_to_dec_chars(*n);
                self.emit_quoted(&d);
                Ok(())
            },
            TypedValue::Char(c) => {
                self.push_char('"');
                self.push_char(*c);
                self.push_char('"');
                proof {
                    assert(self@ =~= base + spec_flat(v@, nl0));
                }
                Ok(())
            },
            TypedValue::Str(s) => {
                let cs = str_to_chars(s.as_str());
                self.emit_quoted(&cs);
                Ok(())
            },
            TypedValue::Unit => {
                self.push_char('"');
                self.push_char('"');
                proof {
                    assert(self@ =~= base + spec_flat(v@, nl0));
                }
                Ok(())
            },
            TypedValue::OptNone => {
                self.push_char('"');
                self.push_char('"');
                proof {
                    assert(self@ =~= base + spec_flat(v@, nl0));
                }
                Ok(())
            },
            TypedValue::Enum(n) => {
                let cs = str_to_chars(n.as_str());
                self.emit_quoted(&cs);
                Ok(())
            },
            TypedValue::OptSome(b) => {
                let r = self.emit_value(b);
                r
            },
            TypedValue::Sequence(vs) => {
                let ghost tv = typed_seq_view(vs@);
                proof {
                    lemma_typed_seq_view(vs@);
                }
                self.try_newline();
                self.push_char('{');
                self.push_char('\n');
                proof {
                    assert(self@ =~= base + open_brace(nl0));
                    assert(tv.skip(0) =~= tv);
                }
                let ghost mut emitted = Seq::<char>::empty();
                let mut i: usize = 0;
                while i < vs.len()
                    invariant
                        *v == TypedValue::Sequence(*vs),
                        tv == typed_seq_view(vs@),
                        tv.len() == vs@.len(),
                        forall|j: int| 0 <= j < vs@.len() ==> #[trigger] tv[j] == vs@[j]@,
                        i <= vs@.len(),
                        all_encodable(tv.take(i as int)),
                        self@ == base + open_brace(nl0) + emitted,
                        spec_flat_elems(tv, 0) == emitted + spec_flat_elems(
                            tv.skip(i as int),
                            i as int,
                        ),
                    decreases vs@.len() - i,
                {
                    proof {
                        assert(decreases_to!(*v => v->Sequence_0));
                        assert(v->Sequence_0 == *vs);
                        assert(decreases_to!(vs@ => vs@[i as int]));
                    }
                    self.seq_index = i;
                    let idx_chars = u64_to_dec_chars(i as u64);
                    let ghost before = self@;
                    self.emit_quoted(&idx_chars);
                    self.push_char(' ');
                    proof {
                        assert(self@.last() == ' ');
                        assert(nl_needed(self@));
                        assert(decreases_to!(vs@ => vs@[i as int]));
                    }
                    let ghost mid = self@;
                    match self.emit_value(&vs[i]) {
                        Ok(()) => {},
                        Err(e) => {
                            proof {
                                assert(tv[i as int] == vs@[i as int]@);
                                assert(!all_encodable(tv));
                            }
                            return Err(e);
                        },
                    }
                    proof {
                        lemma_flat_last(vs@[i as int]@, true);
                    }
                    self.try_newline();
                    proof {
                        let piece = quoted(dec_digits(i as int)) + seq![' '] + spec_flat(
                            tv[i as int],
                            true,
                        ) + entry_nl(tv[i as int]);
                        assert(self@ =~= before + piece) by {
                            if ends_nl(tv[i as int]) {
                                assert(self@ =~= mid + spec_flat(tv[i as int], true));
                            } else {
                                assert(self@ =~= (mid + spec_flat(tv[i as int], true))
                                    + seq!['\n']);
                            }
                            assert(mid =~= before + quoted(dec_digits(i as int)) + seq![' ']);
                        }
                        assert(spec_flat_elems(tv.skip(i as int), i as int) == piece
                            + spec_flat_elems(tv.skip(i + 1), i + 1)) by {
                            assert(tv.skip(i as int)[0] == tv[i as int]);
                            assert(tv.skip(i as int).skip(1) =~= tv.skip(i + 1));
                        }
                        assert(self@ =~= base + open_brace(nl0) + (emitted + piece));
                        assert((emitted + piece) + spec_flat_elems(tv.skip(i + 1), i + 1)
                            =~= emitted + (piece + spec_flat_elems(tv.skip(i + 1), i + 1)));
                        emitted = emitted + piece;
                        assert(tv.take(i + 1).drop_last() =~= tv.take(i as int));
                        assert(all_encodable(tv.take(i + 1))) by {
                            assert forall|j: int| 0 <= j < i + 1 implies encodable(
                                #[trigger] tv.take(i + 1)[j],
                            ) by {
                                if j < i {
                                    assert(tv.take(i as int)[j] == tv.take(i + 1)[j]);
                                } else {
                                    assert(tv.take(i + 1)[j] == tv[i as int]);
                                }
                            }
                        }
                    }
                    i = i + 1;
                }
                self.push_char('}');
                self.push_char('\n');
                proof {
                    assert(tv.skip(vs@.len() as int) =~= Seq::<TypedModel>::empty());
                    assert(emitted + Seq::<char>::empty() =~= emitted);
                    assert(spec_flat_elems(tv, 0) == emitted);
                    assert(tv.take(vs@.len() as int) =~= tv);
                    assert(self@ =~= base + (open_brace(nl0) + spec_flat_elems(tv, 0)
                        + close_brace()));
                }
                Ok(())
            },
            TypedValue::Mapping(ps) => {
                let ghost tv = typed_pairs_view(ps@);
                proof {
                    lemma_typed_pairs_view(ps@);
                }
                self.try_newline();
                self.push_char('{');
                self.push_char('\n');
                proof {
                    assert(self@ =~= base + open_brace(nl0));
                    assert(tv.skip(0) =~= tv);
                }
                let ghost mut emitted = Seq::<char>::empty();
                let mut i: usize = 0;
                while i < ps.len()
                    invariant
                        *v == TypedValue::Mapping(*ps),
                        tv == typed_pairs_view(ps@),
                        tv.len() == ps@.len(),
                        forall|j: int| 0 <= j < ps@.len() ==> #[trigger] tv[j] == (
                            ps@[j].0@,
                            ps@[j].1@,
                        ),
                        i <= ps@.len(),
                        all_entries_encodable(tv.take(i as int)),
                        self@ == base + open_brace(nl0) + emitted,
                        spec_flat_entries(tv) == emitted + spec_flat_entries(tv.skip(i as int)),
                    decreases ps@.len() - i,
                {
                    proof {
                        assert(decreases_to!(*v => v->Mapping_0));
                        assert(v->Mapping_0 == *ps);
                        assert(decreases_to!(ps@ => ps@[i as int]));
                        assert(decreases_to!(ps@[i as int] => ps@[i as int].1));
                    }
                    let kc = match key_chars(&ps[i].0) {
                        Option::Some(kc) => kc,
                        Option::None => {
                            proof {
                                assert(tv[i as int].0 == ps@[i as int].0@);
                                assert(!all_entries_encodable(tv));
                            }
                            return Err(Error::Custom(String::from_str("key must be a string")));
                        },
                    };
                    let ghost before = self@;
                    self.emit_quoted(&kc);
                    self.push_char(' ');
                    proof {
                        assert(self@.last() == ' ');
                        assert(nl_needed(self@));
                    }
                    let ghost mid = self@;
                    match self.emit_value(&ps[i].1) {
                        Ok(()) => {},
                        Err(e) => {
                            proof {
                                assert(tv[i as int].1 == ps@[i as int].1@);
                                assert(!all_entries_encodable(tv));
                            }
                            return Err(e);
                        },
                    }
                    proof {
                        lemma_flat_last(ps@[i as int].1@, true);
                    }
                    self.try_newline();
                    proof {
                        let piece = quoted(kc@) + seq![' '] + spec_flat(tv[i as int].1, true)
                            + entry_nl(tv[i as int].1);
                        assert(self@ =~= before + piece) by {
                            if ends_nl(tv[i as int].1) {
                                assert(self@ =~= mid + spec_flat(tv[i as int].1, true));
                            } else {
                                assert(self@ =~= (mid + spec_flat(tv[i as int].1, true))
                                    + seq!['\n']);
                            }
                            assert(mid =~= before + quoted(kc@) + seq![' ']);
                        }
                        assert(spec_flat_entries(tv.skip(i as int)) == piece
                            + spec_flat_entries(tv.skip(i + 1))) by {
                            assert(tv.skip(i as int)[0] == tv[i as int]);
                            assert(tv.skip(i as int).skip(1) =~= tv.skip(i + 1));
                            assert(key_string(tv[i as int].0) == Some(kc@));
                        }
                        assert(self@ =~= base + open_brace(nl0) + (emitted + piece));
                        assert((emitted + piece) + spec_flat_entries(tv.skip(i + 1)) =~= emitted
                            + (piece + spec_flat_entries(tv.skip(i + 1))));
                        emitted = emitted + piece;
                        assert(all_entries_encodable(tv.take(i + 1))) by {
                            assert forall|j: int| 0 <= j < i + 1 implies key_string(
                                #[trigger] tv.take(i + 1)[j].0,
                            ) is Some && encodable(tv.take(i + 1)[j].1) by {
                                if j < i {
                                    assert(tv.take(i as int)[j] == tv.take(i + 1)[j]);
                                } else {
                                    assert(tv.take(i + 1)[j] == tv[i as int]);
                                }
                            }
                        }
                    }
                    i = i + 1;
                }
                self.push_char('}');
                self.push_char('\n');
                proof {
                    assert(tv.skip(ps@.len() as int) =~= Seq::<(TypedModel, TypedModel)>::empty());
                    assert(emitted + Seq::<char>::empty() =~= emitted);
                    assert(spec_flat_entries(tv) == emitted);
                    assert(tv.take(ps@.len() as int) =~= tv);
                    assert(self@ =~= base + (open_brace(nl0) + spec_flat_entries(tv)
                        + close_brace()));
                }
                Ok(())
            },
            TypedValue::Struct(fs) => {
                let ghost tv = typed_fields_view(fs@);
                proof {
                    lemma_typed_fields_view(fs@);
                }
                self.try_newline();
                self.push_char('{');
                self.push_char('\n');
                proof {
                    assert(self@ =~= base + open_brace(nl0));
                    assert(tv.skip(0) =~= tv);
                }
                let ghost mut emitted = Seq::<char>::empty();
                let mut i: usize = 0;
                while i < fs.len()
                    invariant
                        *v == TypedValue::Struct(*fs),
                        tv == typed_fields_view(fs@),
                        tv.len() == fs@.len(),
                        forall|j: int| 0 <= j < fs@.len() ==> #[trigger] tv[j] == (
                            fs@[j].0@,
                            fs@[j].1@,
                        ),
                        i <= fs@.len(),
                        all_fields_encodable(tv.take(i as int)),
                        self@ == base + open_brace(nl0) + emitted,
                        spec_flat_fields(tv) == emitted + spec_flat_fields(tv.skip(i as int)),
                    decreases fs@.len() - i,
                {
                    proof {
                        assert(decreases_to!(*v => v->Struct_0));
                        assert(v->Struct_0 == *fs);
                        assert(decreases_to!(fs@ => fs@[i as int]));
                        assert(decreases_to!(fs@[i as int] => fs@[i as int].1));
                    }
                    let kc = str_to_chars(fs[i].0.as_str());
                    let ghost before = self@;
                    self.emit_quoted(&kc);
                    self.push_char(' ');
                    proof {
                        assert(self@.last() == ' ');
                        assert(nl_needed(self@));
                    }
                    let ghost mid = self@;
                    match self.emit_value(&fs[i].1) {
                        Ok(()) => {},
                        Err(e) => {
                            proof {
                                assert(tv[i as int].1 == fs@[i as int].1@);
                                assert(!all_fields_encodable(tv));
                            }
                            return Err(e);
                        },
                    }
                    proof {
                        lemma_flat_last(fs@[i as int].1@, true);
                    }
                    self.try_newline();
                    proof {
                        let piece = quoted(tv[i as int].0) + seq![' '] + spec_flat(
                            tv[i as int].1,
                            true,
                        ) + entry_nl(tv[i as int].1);
                        assert(self@ =~= before + piece) by {
                            if ends_nl(tv[i as int].1) {
                                assert(self@ =~= mid + spec_flat(tv[i as int].1, true));
                            } else {
                                assert(self@ =~= (mid + spec_flat(tv[i as int].1, true))
                                    + seq!['\n']);
                            }
                            assert(mid =~= before + quoted(tv[i as int].0) + seq![' ']);
                        }
                        assert(spec_flat_fields(tv.skip(i as int)) == piece + spec_flat_fields(
                            tv.skip(i + 1),
                        )) by {
                            assert(tv.skip(i as int)[0] == tv[i as int]);
                            assert(tv.skip(i as int).skip(1) =~= tv.skip(i + 1));
                        }
                        assert(self@ =~= base + open_brace(nl0) + (emitted + piece));
                        assert((emitted + piece) + spec_flat_fields(tv.skip(i + 1)) =~= emitted + (
                        piece + spec_flat_fields(tv.skip(i + 1))));
                        emitted = emitted + piece;
                        assert(all_fields_encodable(tv.take(i + 1))) by {
                            assert forall|j: int| 0 <= j < i + 1 implies encodable(
                                #[trigger] tv.take(i + 1)[j].1,
                            ) by {
                                if j < i {
                                    assert(tv.take(i as int)[j] == tv.take(i + 1)[j]);
                                } else {
                                    assert(tv.take(i + 1)[j] == tv[i as int]);
                                }
                            }
                        }
                    }
                    i = i + 1;
                }
                self.push_char('}');
                self.push_char('\n');
                proof {
                    assert(tv.skip(fs@.len() as int) =~= Seq::<(Seq<char>, TypedModel)>::empty());
                    assert(emitted + Seq::<char>::empty() =~= emitted);
                    assert(spec_flat_fields(tv) == emitted);
                    assert(tv.take(fs@.len() as int) =~= tv);
                    assert(self@ =~= base + (open_brace(nl0) + spec_flat_fields(tv)
                        + close_brace()));
                }
                Ok(())
            },
        }
    }
}

impl Default for Serializer {
    /// An empty serializer.
    fn default() -> (r: Serializer)
        ensures
            r@ == Seq::<char>::empty(),
    {
        Serializer::new()
    }
}

/// The finished text of `v`: its flat emission, reindented.
pub open spec fn spec_to_string(v: TypedModel) -> Seq<char> {
    spec_prettify(spec_flat(v, false), default_tab())
}

/// The bare-top-level text of `v`: its flat emission with the outermost
/// brace pair stripped, reindented.
pub open spec fn spec_to_file(v: TypedModel) -> Seq<char> {
    spec_prettify(
        spec_flat(v, false).subrange(2, spec_flat(v, false).len() - 2),
        default_tab(),
    )
}

/// Encode `value` as a finished document wrapped in its outermost braces.
/// Fails exactly when some mapping key in it coerces to no string.
pub fn to_string(value: &TypedValue) -> (r: Result<String, Error>)
    ensures
        match r {
            Ok(s) => encodable(value@) && s@ == spec_to_string(value@),
            Err(e) => !encodable(value@) && e.kind() == ErrorKind::Custom,
        },
{
    let mut serializer = Serializer::new();
    match serializer.emit_value(value) {
        Ok(()) => {},
        Err(e) => {
            return Err(e);
        },
    }
    proof {
        assert(serializer@ =~= spec_flat(value@, false));
    }
    serializer.prettify();
    Ok(chars_to_string(&serializer.output))
}

/// Encode `value` as a bare fragment: the outermost synthetic brace pair is
/// stripped, so a top-level struct or mapping renders as bare entry lines.
/// Fails exactly when some mapping key in it coerces to no string.
pub fn to_file(value: &TypedValue) -> (r: Result<String, Error>)
    requires
        spec_flat(value@, false).len() >= 4,
    ensures
        match r {
            Ok(s) => encodable(value@) && s@ == spec_to_file(value@),
            Err(e) => !encodable(value@) && e.kind() == ErrorKind::Custom,
        },
{
    let mut serializer = Serializer::new();
    match serializer.emit_value(value) {
        Ok(()) => {},
        Err(e) => {
            return Err(e);
        },
    }
    proof {
        assert(serializer@ =~= spec_flat(value@, false));
    }
    serializer.trim();
    serializer.prettify();
    Ok(chars_to_string(&serializer.output))
}

} // verus!
