//! The text parser: a tokenizer for quoted strings, braces and `#base`
//! markers, and a recursive-descent pass that builds the tree.

use vstd::prelude::*;

use crate::error::{Error, ErrorKind, Expected, SyntaxError};
use crate::kv::{
    kvs_view, lemma_kvs_view, KeyValue, KeyValueFile, KeyValueFileModel, KeyValueModel, Value,
    ValueModel,
};
use crate::text::{chars_to_string, is_ws, is_ws_char, str_to_chars};

verus! {

broadcast use vstd::std_specs::vec::group_vec_axioms, vstd::seq::group_seq_axioms;

/// Mathematical model of one token.
pub enum TokenModel {
    Quoted(Seq<char>),
    Open,
    Close,
    Base,
}

/// What a token is: a quoted string's content (outer quotes stripped), an
/// opening or closing brace, or a `#base` marker.
#[derive(Debug)]
pub enum TokenKind {
    Quoted(Vec<char>),
    Open,
    Close,
    Base,
}

/// One token, with the character position it starts at.
#[derive(Debug)]
pub struct Token {
    pub at: usize,
    pub kind: TokenKind,
}

impl View for Token {
    type V = TokenModel;

    open spec fn view(&self) -> TokenModel {
        match &self.kind {
            TokenKind::Quoted(v) => TokenModel::Quoted(v@),
            TokenKind::Open => TokenModel::Open,
            TokenKind::Close => TokenModel::Close,
            TokenKind::Base => TokenModel::Base,
        }
    }
}

/// The models of a token sequence, in order.
pub open spec fn tokens_view(ts: Seq<Token>) -> Seq<TokenModel> {
    Seq::new(ts.len(), |i: int| ts[i]@)
}

/// The position of the first quote character of `s`.
pub open spec fn quote_pos(s: Seq<char>) -> Option<int>
    decreases s.len(),
{
    if s.len() == 0 {
        None
    } else if s[0] == '"' {
        Some(0int)
    } else {
        match quote_pos(s.skip(1)) {
            Option::None => None,
            Option::Some(i) => Some(i + 1),
        }
    }
}

/// The five characters of the import marker.
pub open spec fn base_marker() -> Seq<char> {
    seq!['#', 'b', 'a', 's', 'e']
}

/// A token prepended to a tokenization result, errors passed through.
pub open spec fn cons_tok(t: TokenModel, rest: Option<Seq<TokenModel>>) -> Option<
    Seq<TokenModel>,
> {
    match rest {
        Option::None => None,
        Option::Some(ts) => Some(seq![t] + ts),
    }
}

/// A token sequence prepended to a tokenization result, errors passed
/// through.
pub open spec fn concat_toks(ts: Seq<TokenModel>, rest: Option<Seq<TokenModel>>) -> Option<
    Seq<TokenModel>,
> {
    match rest {
        Option::None => None,
        Option::Some(r) => Some(ts + r),
    }
}

/// The tokens of `s`: whitespace separates, `{` and `}` stand alone, `"`
/// opens a string that runs to the next `"`, and `#base` is a marker.
/// `None` when an unquoted character starts no token, or a string never
/// closes.
pub open spec fn spec_tokenize(s: Seq<char>) -> Option<Seq<TokenModel>>
    decreases s.len(),
{
    if s.len() == 0 {
        Some(Seq::empty())
    } else if is_ws(s[0]) {
        spec_tokenize(s.skip(1))
    } else if s[0] == '{' {
        cons_tok(TokenModel::Open, spec_tokenize(s.skip(1)))
    } else if s[0] == '}' {
        cons_tok(TokenModel::Close, spec_tokenize(s.skip(1)))
    } else if s[0] == '"' {
        match quote_pos(s.skip(1)) {
            Option::None => None,
            Option::Some(i) => if 0 <= i && i + 2 <= s.len() {
                cons_tok(
                    TokenModel::Quoted(s.subrange(1, i + 1)),
                    spec_tokenize(s.skip(i + 2)),
                )
            } else {
                None
            },
        }
    } else if s.len() >= 5 && s.subrange(0, 5) == base_marker() {
        cons_tok(TokenModel::Base, spec_tokenize(s.skip(5)))
    } else {
        None
    }
}

/// Where the first quote of `s` lies, `quote_pos` finds it.
pub proof fn lemma_quote_pos_found(s: Seq<char>, j: int)
    requires
        0 <= j < s.len(),
        s[j] == '"',
        forall|k: int| 0 <= k < j ==> s[k] != '"',
    ensures
        quote_pos(s) == Some(j),
    decreases j,
{
    if j > 0 {
        lemma_quote_pos_found(s.skip(1), j - 1);
    }
}

/// Where `s` has no quote, `quote_pos` finds none.
pub proof fn lemma_quote_pos_none(s: Seq<char>)
    requires
        forall|k: int| 0 <= k < s.len() ==> s[k] != '"',
    ensures
        quote_pos(s) == Option::<int>::None,
    decreases s.len(),
{
    if s.len() > 0 {
        lemma_quote_pos_none(s.skip(1));
    }
}

/// The struct the tokenizing and tree-building passes hang off.
#[derive(Debug)]
pub struct KeyValueParser;

impl KeyValueParser {
    /// Split `s` into tokens. `Ok` holds exactly the tokens `spec_tokenize`
    /// names; `Err` is a syntax error exactly when `spec_tokenize` fails.
    pub fn tokenize(s: &Vec<char>) -> (r: Result<Vec<Token>, Error>)
        ensures
            match r {
                Ok(ts) => spec_tokenize(s@) == Some(tokens_view(ts@)),
                Err(e) => spec_tokenize(s@) is None && e.kind() == ErrorKind::ParseKeyValueError,
            },
    {
        let mut toks: Vec<Token> = Vec::new();
        let mut i: usize = 0;
        proof {
            assert(s@.skip(0) =~= s@);
            assert(tokens_view(toks@) =~= Seq::<TokenModel>::empty());
        }
        while i < s.len()
            invariant
                i <= s@.len(),
                spec_tokenize(s@) == concat_toks(tokens_view(toks@), spec_tokenize(s@.skip(i as int))),
            decreases s@.len() - i,
        {
            let ghost rem = s@.skip(i as int);
            proof {
                assert(rem.len() == s@.len() - i);
                assert(rem[0] == s@[i as int]);
            }
            let c = s[i];
            if is_ws_char(c) {
                proof {
                    assert(spec_tokenize(rem) == spec_tokenize(rem.skip(1)));
                    assert(rem.skip(1) =~= s@.skip(i + 1));
                }
                i = i + 1;
            } else if c == '{' {
                let t = Token { at: i, kind: TokenKind::Open };
                proof {
                    assert(spec_tokenize(rem) == cons_tok(TokenModel::Open, spec_tokenize(rem.skip(1))));
                    assert(rem.skip(1) =~= s@.skip(i + 1));
                    assert(tokens_view(toks@.push(t)) =~= tokens_view(toks@) + seq![t@]);
                    lemma_concat_shift(toks@, t, s@, spec_tokenize(s@.skip(i + 1)));
                }
                toks.push(t);
                i = i + 1;
            } else if c == '}' {
                let t = Token { at: i, kind: TokenKind::Close };
                proof {
                    assert(spec_tokenize(rem) == cons_tok(TokenModel::Close, spec_tokenize(rem.skip(1))));
                    assert(rem.skip(1) =~= s@.skip(i + 1));
                    assert(tokens_view(toks@.push(t)) =~= tokens_view(toks@) + seq![t@]);
                    lemma_concat_shift(toks@, t, s@, spec_tokenize(s@.skip(i + 1)));
                }
                toks.push(t);
                i = i + 1;
            } else if c == '"' {
                let mut j = i + 1;
                while j < s.len() && s[j] != '"'
                    invariant
                        i + 1 <= j <= s@.len(),
                        forall|k: int| i + 1 <= k < j ==> s@[k] != '"',
                    decreases s@.len() - j,
                {
                    j = j + 1;
                }
                if j >= s.len() {
                    proof {
                        assert(forall|k: int| 0 <= k < rem.skip(1).len() ==> rem.skip(1)[k] == s@[
                            i + 1 + k
                        ]);
                        lemma_quote_pos_none(rem.skip(1));
                        assert(spec_tokenize(rem) is None);
                    }
                    return Err(Error::ParseKeyValueError(SyntaxError {
                        at: i,
                        expected: Expected::ClosingQuote,
                    }));
                }
                let mut content: Vec<char> = Vec::new();
                let mut k = i + 1;
                proof {
                    assert(content@ =~= s@.subrange(i + 1, i + 1));
                }
                while k < j
                    invariant
                        i + 1 <= k <= j <= s@.len(),
                        content@ == s@.subrange(i + 1, k as int),
                    decreases j - k,
                {
                    content.push(s[k]);
                    proof {
                        assert(content@ =~= s@.subrange(i + 1, k + 1));
                    }
                    k = k + 1;
                }
                let t = Token { at: i, kind: TokenKind::Quoted(content) };
                proof {
                    assert(forall|k: int| 0 <= k < rem.skip(1).len() ==> rem.skip(1)[k] == s@[
                        i + 1 + k
                    ]);
                    assert(rem.skip(1)[j - i - 1] == '"');
                    lemma_quote_pos_found(rem.skip(1), j - i - 1);
                    assert(quote_pos(rem.skip(1)) == Some(j - i - 1));
                    assert(rem.subrange(1, j - i) =~= s@.subrange(i + 1, j as int));
                    assert(rem.skip(j - i + 1) =~= s@.skip(j + 1));
                    assert(spec_tokenize(rem) == cons_tok(
                        TokenModel::Quoted(s@.subrange(i + 1, j as int)),
                        spec_tokenize(s@.skip(j + 1)),
                    ));
                    assert(t@ == TokenModel::Quoted(s@.subrange(i + 1, j as int)));
                    assert(tokens_view(toks@.push(t)) =~= tokens_view(toks@) + seq![t@]);
                    lemma_concat_shift(toks@, t, s@, spec_tokenize(s@.skip(j + 1)));
                }
                toks.push(t);
                i = j + 1;
            } else if c == '#' && s.len() - i > 4 && s[i + 1] == 'b' && s[i + 2] == 'a' && s[i + 3]
                == 's' && s[i + 4] == 'e' {
                let t = Token { at: i, kind: TokenKind::Base };
                proof {
                    assert(rem.subrange(0, 5) =~= base_marker());
                    assert(spec_tokenize(rem) == cons_tok(TokenModel::Base, spec_tokenize(rem.skip(5))));
                    assert(rem.skip(5) =~= s@.skip(i + 5));
                    assert(tokens_view(toks@.push(t)) =~= tokens_view(toks@) + seq![t@]);
                    lemma_concat_shift(toks@, t, s@, spec_tokenize(s@.skip(i + 5)));
                }
                toks.push(t);
                i = i + 5;
            } else {
                proof {
                    if rem.len() >= 5 && rem.subrange(0, 5) == base_marker() {
                        assert(rem.subrange(0, 5)[0] == s@[i as int]);
                        assert(rem.subrange(0, 5)[1] == s@[i + 1]);
                        assert(rem.subrange(0, 5)[2] == s@[i + 2]);
                        assert(rem.subrange(0, 5)[3] == s@[i + 3]);
                        assert(rem.subrange(0, 5)[4] == s@[i + 4]);
                        assert(false);
                    }
                    assert(spec_tokenize(rem) is None);
                }
                return Err(Error::ParseKeyValueError(SyntaxError {
                    at: i,
                    expected: Expected::TokenStart,
                }));
            }
        }
        proof {
            assert(s@.skip(i as int) =~= Seq::<char>::empty());
            assert(spec_tokenize(s@.skip(i as int)) == Some(Seq::<TokenModel>::empty()));
            assert(tokens_view(toks@) + Seq::<TokenModel>::empty() =~= tokens_view(toks@));
        }
        Ok(toks)
    }
}

/// One key/value pair parsed at token position `i`: a quoted key followed by
/// a quoted value or a braced section. `Some` carries the pair and the
/// position after it.
pub open spec fn spec_parse_kv(toks: Seq<TokenModel>, i: int) -> Option<(KeyValueModel, int)>
    decreases toks.len() - i, 0int,
{
    if i < 0 || i >= toks.len() {
        None
    } else {
        match toks[i] {
            TokenModel::Quoted(key) => if i + 1 < toks.len() {
                match toks[i + 1] {
                    TokenModel::Quoted(v) => Some(
                        (KeyValueModel { key, value: ValueModel::Scalar(v) }, i + 2),
                    ),
                    TokenModel::Open => match spec_parse_section(toks, i + 2) {
                        Option::None => None,
                        Option::Some((kvs, j)) => Some(
                            (KeyValueModel { key, value: ValueModel::Section(kvs) }, j),
                        ),
                    },
                    _ => None,
                }
            } else {
                None
            },
            _ => None,
        }
    }
}

/// The pairs of a section parsed from token position `i` up to and including
/// its closing brace. `Some` carries the pairs and the position after the
/// brace.
pub open spec fn spec_parse_section(toks: Seq<TokenModel>, i: int) -> Option<
    (Seq<KeyValueModel>, int),
>
    decreases toks.len() - i, 1int,
{
    if i < 0 || i >= toks.len() {
        None
    } else if toks[i] is Close {
        Some((Seq::empty(), i + 1))
    } else {
        match spec_parse_kv(toks, i) {
            Option::None => None,
            Option::Some((kv, j)) => if i < j <= toks.len() {
                match spec_parse_section(toks, j) {
                    Option::None => None,
                    Option::Some((kvs, k)) => Some((seq![kv] + kvs, k)),
                }
            } else {
                None
            },
        }
    }
}

/// A whole file parsed from token position `i`: imports and pairs, in
/// source order, until the tokens run out.
pub open spec fn spec_parse_items(toks: Seq<TokenModel>, i: int) -> Option<KeyValueFileModel>
    decreases toks.len() - i, 1int,
{
    if i >= toks.len() {
        Some(KeyValueFileModel { imports: Seq::empty(), kvs: Seq::empty() })
    } else if i < 0 {
        None
    } else {
        match toks[i] {
            TokenModel::Base => if i + 1 < toks.len() {
                match toks[i + 1] {
                    TokenModel::Quoted(path) => match spec_parse_items(toks, i + 2) {
                        Option::None => None,
                        Option::Some(f) => Some(
                            KeyValueFileModel { imports: seq![path] + f.imports, kvs: f.kvs },
                        ),
                    },
                    _ => None,
                }
            } else {
                None
            },
            _ => match spec_parse_kv(toks, i) {
                Option::None => None,
                Option::Some((kv, j)) => if i < j <= toks.len() {
                    match spec_parse_items(toks, j) {
                        Option::None => None,
                        Option::Some(f) => Some(
                            KeyValueFileModel { imports: f.imports, kvs: seq![kv] + f.kvs },
                        ),
                    }
                } else {
                    None
                },
            },
        }
    }
}

/// The tree of a text: tokenize, then parse the file items.
pub open spec fn spec_parse_input(s: Seq<char>) -> Option<KeyValueFileModel> {
    match spec_tokenize(s) {
        Option::None => None,
        Option::Some(toks) => spec_parse_items(toks, 0),
    }
}

/// A successful pair parse always moves forward and stays in bounds, so the
/// bound checks inside the parsing definitions never cut anything off.
pub proof fn lemma_parse_kv_progress(toks: Seq<TokenModel>, i: int)
    ensures
        spec_parse_kv(toks, i) matches Some((kv, j)) ==> i + 2 <= j <= toks.len(),
        spec_parse_section(toks, i) matches Some((kvs, j)) ==> i + 1 <= j <= toks.len(),
    decreases toks.len() - i, 2int,
{
    if 0 <= i < toks.len() {
        if i + 1 < toks.len() {
            lemma_parse_kv_progress(toks, i + 2);
        }
        match spec_parse_kv(toks, i) {
            Option::None => {},
            Option::Some((kv, j)) => {
                if i < j <= toks.len() {
                    lemma_parse_kv_progress(toks, j);
                }
            },
        }
    }
}

impl KeyValueParser {
    /// Parse one pair at token position `i`, whose key token the caller has
    /// already seen. `end` is the character position just past the input,
    /// for errors at its end.
    fn parse_kv(toks: &Vec<Token>, i: usize, end: usize) -> (r: Result<(KeyValue, usize), Error>)
        requires
            i < toks@.len(),
            tokens_view(toks@)[i as int] is Quoted,
        ensures
            match r {
                Ok(p) => spec_parse_kv(tokens_view(toks@), i as int) == Some((p.0@, p.1 as int))
                    && i < p.1 <= toks@.len(),
                Err(e) => spec_parse_kv(tokens_view(toks@), i as int) is None && e.kind()
                    == ErrorKind::ParseKeyValueError,
            },
        decreases toks@.len() - i, 0int,
    {
        let ghost tv = tokens_view(toks@);
        let key: String = match &toks[i].kind {
            TokenKind::Quoted(k) => chars_to_string(k),
            _ => {
                proof {
                    assert(false);
                }
                String::new()
            },
        };
        if toks.len() - i <= 1 {
            return Err(Error::ParseKeyValueError(SyntaxError {
                at: end,
                expected: Expected::ValueOrSection,
            }));
        }
        match &toks[i + 1].kind {
            TokenKind::Quoted(v) => {
                let value = Value::Value(chars_to_string(v));
                let kv = KeyValue { key, value };
                proof {
                    assert(tv[i + 1] == toks@[i + 1]@);
                    assert(spec_parse_kv(tv, i as int) == Some((kv@, i + 2)));
                }
                Ok((kv, i + 2))
            },
            TokenKind::Open => {
                proof {
                    assert(tv[i + 1] == toks@[i + 1]@);
                }
                match Self::parse_section(toks, i + 2, end) {
                    Ok((kvs, j)) => {
                        let kv = KeyValue { key, value: Value::Section(kvs) };
                        proof {
                            assert(spec_parse_kv(tv, i as int) == Some((kv@, j as int)));
                        }
                        Ok((kv, j))
                    },
                    Err(e) => Err(e),
                }
            },
            TokenKind::Close => {
                proof {
                    assert(tv[i + 1] == toks@[i + 1]@);
                }
                Err(Error::ParseKeyValueError(SyntaxError {
                    at: toks[i + 1].at,
                    expected: Expected::ValueOrSection,
                }))
            },
            TokenKind::Base => {
                proof {
                    assert(tv[i + 1] == toks@[i + 1]@);
                }
                Err(Error::ParseKeyValueError(SyntaxError {
                    at: toks[i + 1].at,
                    expected: Expected::ValueOrSection,
                }))
            },
        }
    }

    /// Parse the pairs of a section from token position `i` through its
    /// closing brace.
    fn parse_section(toks: &Vec<Token>, i: usize, end: usize) -> (r: Result<
        (Vec<KeyValue>, usize),
        Error,
    >)
        requires
            i <= toks@.len(),
        ensures
            match r {
                Ok(p) => spec_parse_section(tokens_view(toks@), i as int) == Some(
                    (kvs_view(p.0@), p.1 as int),
                ) && i < p.1 <= toks@.len(),
                Err(e) => spec_parse_section(tokens_view(toks@), i as int) is None && e.kind()
                    == ErrorKind::ParseKeyValueError,
            },
        decreases toks@.len() - i, 1int,
    {
        let ghost tv = tokens_view(toks@);
        let mut kvs: Vec<KeyValue> = Vec::new();
        let mut pos: usize = i;
        proof {
            assert(kvs_view(kvs@) =~= Seq::<KeyValueModel>::empty());
            assert(extend_section(kvs_view(kvs@), spec_parse_section(tv, i as int))
                == spec_parse_section(tv, i as int)) by {
                match spec_parse_section(tv, i as int) {
                    Option::None => {},
                    Option::Some((rest, k)) => {
                        assert(kvs_view(kvs@) + rest =~= rest);
                    },
                }
            }
        }
        loop
            invariant
                i <= pos <= toks@.len(),
                tv == tokens_view(toks@),
                spec_parse_section(tv, i as int) == extend_section(
                    kvs_view(kvs@),
                    spec_parse_section(tv, pos as int),
                ),
            decreases toks@.len() - pos,
        {
            if pos >= toks.len() {
                return Err(Error::ParseKeyValueError(SyntaxError {
                    at: end,
                    expected: Expected::KeyOrClose,
                }));
            }
            match &toks[pos].kind {
                TokenKind::Close => {
                    proof {
                        assert(tv[pos as int] == toks@[pos as int]@);
                        assert(spec_parse_section(tv, pos as int) == Some(
                            (Seq::<KeyValueModel>::empty(), pos + 1),
                        ));
                        assert(kvs_view(kvs@) + Seq::<KeyValueModel>::empty() =~= kvs_view(kvs@));
                    }
                    return Ok((kvs, pos + 1));
                },
                TokenKind::Quoted(_) => {
                    proof {
                        assert(tv[pos as int] == toks@[pos as int]@);
                    }
                    match Self::parse_kv(toks, pos, end) {
                        Ok((kv, j)) => {
                            proof {
                                lemma_push_kv(kvs@, kv);
                                match spec_parse_section(tv, j as int) {
                                    Option::None => {},
                                    Option::Some((rest, k)) => {
                                        assert(spec_parse_section(tv, pos as int) == Some(
                                            (seq![kv@] + rest, k),
                                        ));
                                        assert(kvs_view(kvs@) + (seq![kv@] + rest) =~= kvs_view(
                                            kvs@.push(kv),
                                        ) + rest);
                                    },
                                }
                            }
                            kvs.push(kv);
                            pos = j;
                        },
                        Err(e) => {
                            return Err(e);
                        },
                    }
                },
                TokenKind::Open => {
                    proof {
                        assert(tv[pos as int] == toks@[pos as int]@);
                    }
                    return Err(Error::ParseKeyValueError(SyntaxError {
                        at: toks[pos].at,
                        expected: Expected::KeyOrClose,
                    }));
                },
                TokenKind::Base => {
                    proof {
                        assert(tv[pos as int] == toks@[pos as int]@);
                    }
                    return Err(Error::ParseKeyValueError(SyntaxError {
                        at: toks[pos].at,
                        expected: Expected::KeyOrClose,
                    }));
                },
            }
        }
    }

    /// Parse a whole token stream as file items: imports and pairs until the
    /// tokens run out.
    fn parse_items(toks: &Vec<Token>, end: usize) -> (r: Result<KeyValueFile, Error>)
        ensures
            match r {
                Ok(f) => spec_parse_items(tokens_view(toks@), 0) == Some(f@),
                Err(e) => spec_parse_items(tokens_view(toks@), 0) is None && e.kind()
                    == ErrorKind::ParseKeyValueError,
            },
    {
        let ghost tv = tokens_view(toks@);
        let mut file = KeyValueFile::new();
        let mut pos: usize = 0;
        proof {
            assert(extend_file(file@, spec_parse_items(tv, 0)) == spec_parse_items(tv, 0)) by {
                match spec_parse_items(tv, 0) {
                    Option::None => {},
                    Option::Some(f) => {
                        assert(file@.imports + f.imports =~= f.imports);
                        assert(file@.kvs + f.kvs =~= f.kvs);
                    },
                }
            }
        }
        loop
            invariant
                pos <= toks@.len(),
                tv == tokens_view(toks@),
                spec_parse_items(tv, 0) == extend_file(file@, spec_parse_items(tv, pos as int)),
            decreases toks@.len() - pos,
        {
            if pos >= toks.len() {
                proof {
                    assert(spec_parse_items(tv, pos as int) == Some(
                        KeyValueFileModel { imports: Seq::empty(), kvs: Seq::empty() },
                    ));
                    assert(file@.imports + Seq::<Seq<char>>::empty() =~= file@.imports);
                    assert(file@.kvs + Seq::<KeyValueModel>::empty() =~= file@.kvs);
                }
                return Ok(file);
            }
            match &toks[pos].kind {
                TokenKind::Base => {
                    proof {
                        assert(tv[pos as int] == toks@[pos as int]@);
                    }
                    if toks.len() - pos <= 1 {
                        return Err(Error::ParseKeyValueError(SyntaxError {
                            at: end,
                            expected: Expected::ImportPath,
                        }));
                    }
                    match &toks[pos + 1].kind {
                        TokenKind::Quoted(p) => {
                            let path = chars_to_string(p);
                            let ghost old_fv = file@;
                            proof {
                                assert(tv[pos + 1] == toks@[pos + 1]@);
                                lemma_push_import(file.imports@, path);
                            }
                            file.imports.push(path);
                            proof {
                                assert(file@.imports == old_fv.imports + seq![path@]);
                                assert(file@.kvs == old_fv.kvs);
                                match spec_parse_items(tv, pos + 2) {
                                    Option::None => {},
                                    Option::Some(f) => {
                                        assert(spec_parse_items(tv, pos as int) == Some(
                                            KeyValueFileModel {
                                                imports: seq![path@] + f.imports,
                                                kvs: f.kvs,
                                            },
                                        ));
                                        assert(old_fv.imports + (seq![path@] + f.imports)
                                            =~= file@.imports + f.imports);
                                    },
                                }
                            }
                            pos = pos + 2;
                        },
                        _ => {
                            proof {
                                assert(tv[pos + 1] == toks@[pos + 1]@);
                            }
                            return Err(Error::ParseKeyValueError(SyntaxError {
                                at: toks[pos + 1].at,
                                expected: Expected::ImportPath,
                            }));
                        },
                    }
                },
                TokenKind::Quoted(_) => {
                    proof {
                        assert(tv[pos as int] == toks@[pos as int]@);
                    }
                    match Self::parse_kv(toks, pos, end) {
                        Ok((kv, j)) => {
                            let ghost old_fv = file@;
                            proof {
                                lemma_push_kv(file.kvs@, kv);
                            }
                            file.kvs.push(kv);
                            proof {
                                assert(file@.kvs == old_fv.kvs + seq![kv@]);
                                assert(file@.imports == old_fv.imports);
                                match spec_parse_items(tv, j as int) {
                                    Option::None => {},
                                    Option::Some(f) => {
                                        assert(spec_parse_items(tv, pos as int) == Some(
                                            KeyValueFileModel {
                                                imports: f.imports,
                                                kvs: seq![kv@] + f.kvs,
                                            },
                                        ));
                                        assert(old_fv.kvs + (seq![kv@] + f.kvs) =~= file@.kvs
                                            + f.kvs);
                                    },
                                }
                            }
                            pos = j;
                        },
                        Err(e) => {
                            return Err(e);
                        },
                    }
                },
                TokenKind::Open => {
                    proof {
                        assert(tv[pos as int] == toks@[pos as int]@);
                    }
                    return Err(Error::ParseKeyValueError(SyntaxError {
                        at: toks[pos].at,
                        expected: Expected::KeyOrImport,
                    }));
                },
                TokenKind::Close => {
                    proof {
                        assert(tv[pos as int] == toks@[pos as int]@);
                    }
                    return Err(Error::ParseKeyValueError(SyntaxError {
                        at: toks[pos].at,
                        expected: Expected::KeyOrImport,
                    }));
                },
            }
        }
    }
}

/// A pair prefix prepended to a section-parse result, errors passed through.
pub open spec fn extend_section(prefix: Seq<KeyValueModel>, rest: Option<(Seq<KeyValueModel>, int)>)
    -> Option<(Seq<KeyValueModel>, int)> {
    match rest {
        Option::None => None,
        Option::Some((kvs, k)) => Some((prefix + kvs, k)),
    }
}

/// A file prefix prepended to a file-parse result, errors passed through.
pub open spec fn extend_file(prefix: KeyValueFileModel, rest: Option<KeyValueFileModel>) -> Option<
    KeyValueFileModel,
> {
    match rest {
        Option::None => None,
        Option::Some(f) => Some(
            KeyValueFileModel { imports: prefix.imports + f.imports, kvs: prefix.kvs + f.kvs },
        ),
    }
}

/// Pushing an import path extends the imports' model by its text.
proof fn lemma_push_import(imports: Seq<String>, path: String)
    ensures
        Seq::new(imports.push(path).len(), |i: int| imports.push(path)[i]@) == Seq::new(
            imports.len(),
            |i: int| imports[i]@,
        ) + seq![path@],
{
    assert(Seq::new(imports.push(path).len(), |i: int| imports.push(path)[i]@) =~= Seq::new(
        imports.len(),
        |i: int| imports[i]@,
    ) + seq![path@]);
}

/// Pushing a pair extends the model sequence by its model.
proof fn lemma_push_kv(kvs: Seq<KeyValue>, kv: KeyValue)
    ensures
        kvs_view(kvs.push(kv)) == kvs_view(kvs) + seq![kv@],
{
    assert(kvs.push(kv).drop_last() =~= kvs);
    assert(kvs_view(kvs.push(kv)) == kvs_view(kvs).push(kv@));
    assert(kvs_view(kvs).push(kv@) =~= kvs_view(kvs) + seq![kv@]);
}

/// Parse a text into its tree and import list. `Ok` exactly when the text
/// follows the grammar, holding the file `spec_parse_input` names; `Err`
/// is a syntax error otherwise.
pub fn parse_input(input: &str) -> (r: Result<KeyValueFile, Error>)
    ensures
        match r {
            Ok(f) => spec_parse_input(input@) == Some(f@),
            Err(e) => spec_parse_input(input@) is None && e.kind()
                == ErrorKind::ParseKeyValueError,
        },
{
    let chars = str_to_chars(input);
    let toks = match KeyValueParser::tokenize(&chars) {
        Ok(ts) => ts,
        Err(e) => {
            return Err(e);
        },
    };
    KeyValueParser::parse_items(&toks, chars.len())
}

/// The position of the last slash of `s`.
pub open spec fn slash_pos(s: Seq<char>) -> Option<int>
    decreases s.len(),
{
    if s.len() == 0 {
        None
    } else if s.last() == '/' {
        Some(s.len() - 1)
    } else {
        slash_pos(s.drop_last())
    }
}

/// The directory part of a path: everything before its last slash, or
/// nothing when it has none.
pub open spec fn parent_dir(s: Seq<char>) -> Seq<char> {
    match slash_pos(s) {
        Option::None => Seq::empty(),
        Option::Some(i) => s.take(i),
    }
}

/// A path joined under a directory with a single slash.
pub open spec fn join_path(dir: Seq<char>, p: Seq<char>) -> Seq<char> {
    dir + seq!['/'] + p
}

/// The import paths of a file joined under one directory, in order.
pub open spec fn joined_imports(dir: Seq<char>, imports: Seq<Seq<char>>) -> Seq<Seq<char>> {
    Seq::new(imports.len(), |i: int| join_path(dir, imports[i]))
}

/// Mathematical model of the resolver's state.
pub struct ResolverModel {
    pub pending: Seq<Seq<char>>,
    pub current: Seq<char>,
    pub done: Seq<KeyValueModel>,
}

/// The breadth-first import flattener: a queue of paths still to read, the
/// path last handed out, and the merged pairs so far. The caller reads and
/// parses each path the resolver hands out and returns the parsed file;
/// the merge appends that file's pairs and queues its imports, each joined
/// under the current path's directory. The primary file's own pairs come
/// first, then each imported file's, in import order; imports are never
/// interleaved into the importing file's pairs. No path is remembered as
/// visited: a cycle of imports would keep the queue filled forever.
#[derive(Debug)]
pub struct ImportResolver {
    pending: Vec<String>,
    current: String,
    done: Vec<KeyValue>,
}

impl View for ImportResolver {
    type V = ResolverModel;

    /// The resolver's state.
    closed spec fn view(&self) -> ResolverModel {
        ResolverModel {
            pending: Seq::new(self.pending@.len(), |i: int| self.pending@[i]@),
            current: self.current@,
            done: kvs_view(self.done@),
        }
    }
}

impl ImportResolver {
    /// A resolver seeded with the primary path.
    pub fn new(path: &str) -> (r: ImportResolver)
        ensures
            r@.pending == seq![path@],
            r@.done == Seq::<KeyValueModel>::empty(),
    {
        let mut pending: Vec<String> = Vec::new();
        pending.push(String::from_str(path));
        let r = ImportResolver { pending, current: String::new(), done: Vec::new() };
        proof {
            assert(r@.pending =~= seq![path@]);
            assert(r@.done =~= Seq::<KeyValueModel>::empty());
        }
        r
    }

    /// Hand out the next queued path, remembering it as current; `None`
    /// when the queue has drained and the merge is complete.
    pub fn next_path(&mut self) -> (r: Option<String>)
        ensures
            match r {
                Option::Some(p) => old(self)@.pending.len() > 0 && p@ == old(self)@.pending[0]
                    && final(self)@.pending == old(self)@.pending.skip(1) && final(self)@.current
                    == p@ && final(self)@.done == old(self)@.done,
                Option::None => old(self)@.pending.len() == 0 && final(self)@ == old(self)@,
            },
    {
        if self.pending.len() == 0 {
            return None;
        }
        let p = self.pending.remove(0);
        let ghost old_pending = old(self)@.pending;
        self.current = p.clone();
        proof {
            assert(self@.pending =~= old_pending.skip(1));
        }
        Some(p)
    }

    /// Merge one parsed file: append its pairs to the result and queue its
    /// import paths, each joined under the current path's directory.
    pub fn add_parsed(&mut self, file: KeyValueFile)
        ensures
            final(self)@.done == old(self)@.done + file@.kvs,
            final(self)@.pending == old(self)@.pending + joined_imports(
                parent_dir(old(self)@.current),
                file@.imports,
            ),
            final(self)@.current == old(self)@.current,
    {
        let ghost file_kvs = file@.kvs;
        let ghost file_imports = file@.imports;
        let ghost old_done = old(self)@.done;
        let ghost old_pending = old(self)@.pending;
        let dir = parent_dir_chars(&self.current);
        let mut kvs = file.kvs;
        let ghost mut taken = Seq::<KeyValueModel>::empty();
        proof {
            assert(taken + kvs_view(kvs@) =~= file_kvs);
            assert(kvs_view(self.done@) + taken =~= old_done);
        }
        while kvs.len() > 0
            invariant
                taken + kvs_view(kvs@) == file_kvs,
                kvs_view(self.done@) == old_done + taken,
                self.pending@ == old(self).pending@,
                self.current@ == old(self).current@,
                dir@ == parent_dir(old(self)@.current),
            decreases kvs@.len(),
        {
            let ghost pre = kvs@;
            let kv = kvs.remove(0);
            let ghost pre_done = self.done@;
            self.done.push(kv);
            proof {
                lemma_kvs_view(pre);
                lemma_kvs_view(kvs@);
                assert(kvs@ =~= pre.skip(1));
                assert(kvs_view(kvs@) =~= kvs_view(pre).skip(1));
                assert(kvs_view(pre)[0] == kv@);
                lemma_push_kv(pre_done, kv);
                assert((taken.push(kv@)) + kvs_view(kvs@) =~= taken + kvs_view(pre));
                assert((old_done + taken).push(kv@) =~= old_done + taken.push(kv@));
                taken = taken.push(kv@);
            }
        }
        proof {
            assert(kvs_view(kvs@) =~= Seq::<KeyValueModel>::empty()) by {
                lemma_kvs_view(kvs@);
            }
            assert(taken =~= file_kvs);
        }
        let mut imports = file.imports;
        let ghost mut placed = Seq::<Seq<char>>::empty();
        proof {
            assert(placed + Seq::new(imports@.len(), |i: int| imports@[i]@) =~= file_imports);
            assert(joined_imports(dir@, placed) =~= Seq::<Seq<char>>::empty());
            assert(self@.pending + joined_imports(dir@, placed) =~= old_pending);
        }
        while imports.len() > 0
            invariant
                placed + Seq::new(imports@.len(), |i: int| imports@[i]@) == file_imports,
                Seq::new(self.pending@.len(), |i: int| self.pending@[i]@) == old_pending
                    + joined_imports(dir@, placed),
                kvs_view(self.done@) == old_done + file_kvs,
                self.current@ == old(self).current@,
                dir@ == parent_dir(old(self)@.current),
            decreases imports@.len(),
        {
            let ghost pre = imports@;
            let p = imports.remove(0);
            let joined = join_path_chars(&dir, &p);
            let ghost pre_pending = self.pending@;
            self.pending.push(joined);
            proof {
                assert(imports@ =~= pre.skip(1));
                assert(placed.push(p@) + Seq::new(imports@.len(), |i: int| imports@[i]@)
                    =~= placed + Seq::new(pre.len(), |i: int| pre[i]@)) by {
                    assert(Seq::new(pre.len(), |i: int| pre[i]@)[0] == p@);
                    assert forall|k: int| 0 <= k < imports@.len() implies #[trigger] imports@[k]
                        == pre[k + 1] by {
                    }
                }
                assert(Seq::new(self.pending@.len(), |i: int| self.pending@[i]@) =~= Seq::new(
                    pre_pending.len(),
                    |i: int| pre_pending[i]@,
                ) + seq![joined@]);
                assert(joined_imports(dir@, placed.push(p@)) =~= joined_imports(dir@, placed)
                    + seq![join_path(dir@, p@)]);
                assert((old_pending + joined_imports(dir@, placed)) + seq![joined@]
                    =~= old_pending + joined_imports(dir@, placed.push(p@)));
                placed = placed.push(p@);
            }
        }
        proof {
            assert(Seq::new(imports@.len(), |i: int| imports@[i]@) =~= Seq::<Seq<char>>::empty());
            assert(placed =~= file_imports);
        }
    }

    /// The merged pairs, in arrival order.
    pub fn finish(self) -> (r: Vec<KeyValue>)
        ensures
            kvs_view(r@) == self@.done,
    {
        self.done
    }
}

/// The directory part of a path, as characters.
fn parent_dir_chars(s: &String) -> (r: Vec<char>)
    ensures
        r@ == parent_dir(s@),
{
    let cs = str_to_chars(s.as_str());
    let mut i = cs.len();
    while i > 0 && cs[i - 1] != '/'
        invariant
            i <= cs@.len(),
            forall|k: int| i <= k < cs@.len() ==> cs@[k] != '/',
        decreases i,
    {
        i = i - 1;
    }
    proof {
        lemma_slash_pos(cs@, i as int);
    }
    if i == 0 {
        let r: Vec<char> = Vec::new();
        proof {
            assert(r@ =~= parent_dir(s@));
        }
        r
    } else {
        let mut r: Vec<char> = Vec::new();
        let mut k: usize = 0;
        while k < i - 1
            invariant
                i >= 1,
                i <= cs@.len(),
                cs@ == s@,
                k <= i - 1,
                r@ == s@.take(k as int),
            decreases i - k,
        {
            r.push(cs[k]);
            proof {
                assert(r@ =~= s@.take(k + 1));
            }
            k = k + 1;
        }
        r
    }
}

/// Where the suffix from `i` on has no slash, the last slash sits just
/// before it or nowhere.
proof fn lemma_slash_pos(s: Seq<char>, i: int)
    requires
        0 <= i <= s.len(),
        forall|k: int| i <= k < s.len() ==> s[k] != '/',
        i > 0 ==> s[i - 1] == '/',
    ensures
        i == 0 ==> slash_pos(s) is None,
        i > 0 ==> slash_pos(s) == Some(i - 1),
    decreases s.len(),
{
    if s.len() > 0 {
        if i == s.len() {
        } else {
            assert(s.last() != '/');
            assert forall|k: int| i <= k < s.drop_last().len() implies s.drop_last()[k]
                != '/' by {
                assert(s.drop_last()[k] == s[k]);
            }
            if i > 0 {
                assert(s.drop_last()[i - 1] == s[i - 1]);
            }
            lemma_slash_pos(s.drop_last(), i);
        }
    }
}

/// A path joined under a directory, as text.
fn join_path_chars(dir: &Vec<char>, p: &String) -> (r: String)
    ensures
        r@ == join_path(dir@, p@),
{
    let mut out: Vec<char> = Vec::new();
    let mut k: usize = 0;
    while k < dir.len()
        invariant
            k <= dir@.len(),
            out@ == dir@.take(k as int),
        decreases dir@.len() - k,
    {
        out.push(dir[k]);
        proof {
            assert(out@ =~= dir@.take(k + 1));
        }
        k = k + 1;
    }
    out.push('/');
    let pc = str_to_chars(p.as_str());
    let mut m: usize = 0;
    proof {
        assert(dir@.take(dir@.len() as int) =~= dir@);
        assert(out@ =~= dir@ + seq!['/'] + pc@.take(0));
    }
    while m < pc.len()
        invariant
            m <= pc@.len(),
            pc@ == p@,
            out@ == dir@ + seq!['/'] + pc@.take(m as int),
        decreases pc@.len() - m,
    {
        out.push(pc[m]);
        proof {
            assert(out@ =~= dir@ + seq!['/'] + pc@.take(m + 1));
        }
        m = m + 1;
    }
    proof {
        assert(pc@.take(pc@.len() as int) =~= pc@);
    }
    chars_to_string(&out)
}

/// Pushing one token onto the collected prefix keeps the concatenation
/// invariant.
proof fn lemma_concat_shift(toks: Seq<Token>, t: Token, s: Seq<char>, rest: Option<Seq<TokenModel>>)
    ensures
        concat_toks(tokens_view(toks), cons_tok(t@, rest)) == concat_toks(
            tokens_view(toks.push(t)),
            rest,
        ),
{
    match rest {
        Option::None => {},
        Option::Some(r) => {
            assert(tokens_view(toks.push(t)) =~= tokens_view(toks) + seq![t@]);
            assert(tokens_view(toks) + (seq![t@] + r) =~= (tokens_view(toks) + seq![t@]) + r);
        },
    }
}

} // verus!
