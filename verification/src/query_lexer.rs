use vstd::prelude::*;
use vstd::string::StrSliceExecFns;

verus! {

/// Whether `c` has the Unicode white-space property, the class that
/// `char::is_whitespace` decides.
pub uninterp spec fn is_unicode_whitespace(c: char) -> bool;

/// Whether `c` is Unicode-alphanumeric, the class that
/// `char::is_alphanumeric` decides.
pub uninterp spec fn is_unicode_alphanumeric(c: char) -> bool;

/// Relies on `char::is_whitespace`: whether `c` has the Unicode
/// white-space property.  Within ASCII that property holds exactly
/// for space, tab, line feed, vertical tab, form feed and carriage
/// return.
#[verifier::external_body]
fn char_is_whitespace(c: char) -> (r: bool)
    ensures
        r == is_unicode_whitespace(c),
        (c as u32) < 128 ==> (r <==> ((c as u32) == 32 || 9 <= (c as u32) <= 13)),
{
    c.is_whitespace()
}

/// Relies on `char::is_alphanumeric`: whether `c` is in one of the
/// Unicode alphabetic or numeric categories.  Within ASCII these are
/// exactly the digits and the upper- and lower-case letters.
#[verifier::external_body]
fn char_is_alphanumeric(c: char) -> (r: bool)
    ensures
        r == is_unicode_alphanumeric(c),
        (c as u32) < 128 ==> (r <==> (48 <= (c as u32) <= 57 || 65 <= (c as u32) <= 90 || 97 <= (
        c as u32) <= 122)),
{
    c.is_alphanumeric()
}

/// The mathematical shape of a [`QueryToken`]: the same token with
/// every string slice replaced by its character sequence.
pub enum TokenModel {
    /// Model of [`QueryToken::Attribute`].
    Attribute(bool, Seq<char>, Seq<Seq<char>>),
    /// Model of [`QueryToken::Freetext`].
    Freetext(Seq<char>),
}

/// A single token in a query string.  It only holds slices into the
/// source query.
#[derive(Debug, PartialEq)]
pub enum QueryToken<'a> {
    /// A full attribute in the query string.
    ///
    /// The boolean indicates whether the attribute is inclusive or
    /// exclusive.  The first string slice is the name of the index;
    /// the vector holds the attribute values that are queried.
    Attribute(bool, &'a str, Vec<&'a str>),
    /// A non-relevant, non-whitespace part of the query string.
    Freetext(&'a str),
}

impl<'a> View for QueryToken<'a> {
    type V = TokenModel;

    open spec fn view(&self) -> TokenModel {
        match self {
            QueryToken::Attribute(inclusive, name, values) => TokenModel::Attribute(
                *inclusive,
                name@,
                Seq::new(values@.len(), |i: int| values@[i]@),
            ),
            QueryToken::Freetext(text) => TokenModel::Freetext(text@),
        }
    }
}

/// The first position at or after `i` whose character is not
/// whitespace, or the end of the input.
pub open spec fn skip_ws_spec(s: Seq<char>, i: int) -> int
    decreases s.len() - i,
{
    if i < s.len() && is_unicode_whitespace(s[i]) {
        skip_ws_spec(s, i + 1)
    } else {
        i
    }
}

/// The first position at or after `i` whose character is whitespace,
/// or the end of the input: where a freetext token starting at `i`
/// ends.
pub open spec fn freetext_end(s: Seq<char>, i: int) -> int
    decreases s.len() - i,
{
    if i < s.len() && !is_unicode_whitespace(s[i]) {
        freetext_end(s, i + 1)
    } else {
        i
    }
}

/// The first position at or after `i` whose character is a colon or
/// not alphanumeric, or the end of the input: where an attribute name
/// starting at `i` ends.
pub open spec fn ident_end(s: Seq<char>, i: int) -> int
    decreases s.len() - i,
{
    if i < s.len() && s[i] != ':' && is_unicode_alphanumeric(s[i]) {
        ident_end(s, i + 1)
    } else {
        i
    }
}

/// The comma-separated value list starting at position `i` with the
/// current value beginning at `vstart`, and the position where the
/// list ends.  A value runs until a comma, whitespace or the end of
/// the input; empty values are dropped.
pub open spec fn values_spec(s: Seq<char>, vstart: int, i: int) -> (Seq<Seq<char>>, int)
    decreases s.len() - i,
{
    if i >= s.len() {
        (
            if vstart < s.len() {
                seq![s.subrange(vstart, s.len() as int)]
            } else {
                Seq::empty()
            },
            s.len() as int,
        )
    } else if is_unicode_whitespace(s[i]) {
        (
            if vstart < i {
                seq![s.subrange(vstart, i)]
            } else {
                Seq::empty()
            },
            i,
        )
    } else if s[i] == ',' {
        let rest = values_spec(s, i + 1, i + 1);
        (
            (if vstart < i {
                seq![s.subrange(vstart, i)]
            } else {
                Seq::empty()
            }) + rest.0,
            rest.1,
        )
    } else {
        values_spec(s, vstart, i + 1)
    }
}

/// Whether the `+`/`-` sign at position `i` opens a valid attribute
/// token: a non-empty alphanumeric identifier followed by a colon.
pub open spec fn attribute_valid(s: Seq<char>, i: int) -> bool {
    let ie = ident_end(s, i + 1);
    ie < s.len() && s[ie] == ':' && ie > i + 1
}

/// The token that starts at position `i` — which must hold a
/// non-whitespace character — and the position just after it.
///
/// A `+` or `-` opens an attribute token if a valid identifier and
/// colon follow; otherwise the whole run up to the next whitespace is
/// a freetext token.
pub open spec fn token_at(s: Seq<char>, i: int) -> (TokenModel, int) {
    if s[i] == '+' || s[i] == '-' {
        if attribute_valid(s, i) {
            let ie = ident_end(s, i + 1);
            let vs = values_spec(s, ie + 1, ie + 1);
            (TokenModel::Attribute(s[i] == '+', s.subrange(i + 1, ie), vs.0), vs.1)
        } else {
            let fe = freetext_end(s, ident_end(s, i + 1));
            (TokenModel::Freetext(s.subrange(i, fe)), fe)
        }
    } else {
        let fe = freetext_end(s, i);
        (TokenModel::Freetext(s.subrange(i, fe)), fe)
    }
}

/// The position bounds of the scanning functions: they never move
/// backwards and never pass the end of the input.
pub proof fn lemma_scan_bounds(s: Seq<char>, i: int)
    requires
        0 <= i <= s.len(),
    ensures
        i <= skip_ws_spec(s, i) <= s.len(),
        i <= freetext_end(s, i) <= s.len(),
        i <= ident_end(s, i) <= s.len(),
    decreases s.len() - i,
{
    if i < s.len() {
        lemma_scan_bounds(s, i + 1);
    }
}

/// The value list scan never moves backwards and never passes the end
/// of the input.
pub proof fn lemma_values_bounds(s: Seq<char>, vstart: int, i: int)
    requires
        0 <= i <= s.len(),
    ensures
        i <= values_spec(s, vstart, i).1 <= s.len(),
    decreases s.len() - i,
{
    if i < s.len() {
        lemma_values_bounds(s, i + 1, i + 1);
        lemma_values_bounds(s, vstart, i + 1);
    }
}

/// Reading a token always advances the position.
pub proof fn lemma_token_advances(s: Seq<char>, i: int)
    requires
        0 <= i < s.len(),
        !is_unicode_whitespace(s[i]),
    ensures
        i < token_at(s, i).1 <= s.len(),
{
    lemma_scan_bounds(s, i);
    if s[i] == '+' || s[i] == '-' {
        lemma_scan_bounds(s, i + 1);
        let ie = ident_end(s, i + 1);
        if attribute_valid(s, i) {
            lemma_values_bounds(s, ie + 1, ie + 1);
        } else {
            lemma_scan_bounds(s, ie);
        }
    } else {
        assert(freetext_end(s, i) == freetext_end(s, i + 1));
        lemma_scan_bounds(s, i + 1);
    }
}

/// The sequence of tokens of the input from position `i` on.
pub open spec fn lex_spec(s: Seq<char>, i: int) -> Seq<TokenModel>
    decreases s.len() - i,
{
    let j = skip_ws_spec(s, i);
    if !(0 <= i <= s.len()) || j >= s.len() {
        Seq::empty()
    } else {
        let (t, p) = token_at(s, j);
        if i <= j && j < p <= s.len() {
            seq![t] + lex_spec(s, p)
        } else {
            seq![t]
        }
    }
}

/// QueryLexer takes a string slice and hands out a
/// [`QueryToken`](QueryToken) for each relevant section of the input,
/// one per call of [`next_token`](QueryLexer::next_token).
pub struct QueryLexer<'a> {
    query_str: &'a str,
    pos: usize,
    len: usize,
}

impl<'a> QueryLexer<'a> {
    /// Well-formedness: the position lies within the input.
    pub closed spec fn wf(&self) -> bool {
        self.pos <= self.query_str@.len() && self.len == self.query_str@.len()
    }

    /// The character sequence being tokenized.
    pub closed spec fn input(&self) -> Seq<char> {
        self.query_str@
    }

    /// The current position of the lexer, in characters.
    pub closed spec fn position(&self) -> int {
        self.pos as int
    }

    /// Creates a new QueryLexer over `query_str`.
    pub fn new(query_str: &'a str) -> (r: Self)
        ensures
            r.wf(),
            r.input() == query_str@,
            r.position() == 0,
    {
        QueryLexer { query_str, pos: 0, len: query_str.unicode_len() }
    }

    /// Skips whitespace in the input.
    fn skip_whitespace(&mut self)
        requires
            old(self).wf(),
        ensures
            final (self).wf(),
            final (self).query_str == old(self).query_str,
            final (self).position() == skip_ws_spec(old(self).input(), old(self).position()),
            final (self).position() == old(self).input().len() || !is_unicode_whitespace(
                old(self).input()[final (self).position()],
            ),
    {
        while self.pos < self.len
            invariant
                self.wf(),
                self.query_str == old(self).query_str,
                self.len == self.query_str@.len(),
                skip_ws_spec(old(self).input(), old(self).position()) == skip_ws_spec(
                    self.input(),
                    self.position(),
                ),
            decreases self.len - self.pos,
        {
            let c = self.query_str.get_char(self.pos);
            if !char_is_whitespace(c) {
                return ;
            }
            self.pos = self.pos + 1;
        }
    }

    /// Reads until the first whitespace character or the end of the
    /// input and returns a [Freetext token](QueryToken::Freetext)
    /// holding everything from `start_idx` to there.
    fn read_freetext(&mut self, start_idx: usize) -> (r: QueryToken<'a>)
        requires
            old(self).wf(),
            start_idx <= old(self).position(),
        ensures
            final (self).wf(),
            final (self).query_str == old(self).query_str,
            final (self).position() == freetext_end(old(self).input(), old(self).position()),
            r@ == TokenModel::Freetext(
                old(self).input().subrange(start_idx as int, final (self).position()),
            ),
    {
        while self.pos < self.len
            invariant
                self.wf(),
                self.query_str == old(self).query_str,
                self.len == self.query_str@.len(),
                start_idx <= self.pos,
                old(self).position() <= self.position(),
                freetext_end(old(self).input(), old(self).position()) == freetext_end(
                    self.input(),
                    self.position(),
                ),
            decreases self.len - self.pos,
        {
            let c = self.query_str.get_char(self.pos);
            if char_is_whitespace(c) {
                return QueryToken::Freetext(
                    self.query_str.substring_char(start_idx, self.pos),
                );
            }
            self.pos = self.pos + 1;
        }
        QueryToken::Freetext(self.query_str.substring_char(start_idx, self.pos))
    }

    /// Reads a full attribute, with its index name and value list.
    /// On success an [Attribute token](QueryToken::Attribute) is
    /// returned; if the input is malformed from the sign onward, a
    /// [Freetext token](QueryToken::Freetext) is returned instead.
    fn read_attribute(&mut self) -> (r: QueryToken<'a>)
        requires
            old(self).wf(),
            old(self).position() < old(self).input().len(),
            old(self).input()[old(self).position()] == '+' || old(self).input()[old(
                self,
            ).position()] == '-',
        ensures
            final (self).wf(),
            final (self).query_str == old(self).query_str,
            r@ == token_at(old(self).input(), old(self).position()).0,
            final (self).position() == token_at(old(self).input(), old(self).position()).1,
    {
        let ghost s = self.query_str@;
        let ghost i = self.pos as int;
        let start_idx = self.pos;
        let first_char = self.query_str.get_char(self.pos);
        self.pos = self.pos + 1;
        let ident_start = self.pos;

        // scan the attribute name
        while self.pos < self.len && self.query_str.get_char(self.pos) != ':'
            && char_is_alphanumeric(self.query_str.get_char(self.pos))
            invariant
                self.wf(),
                self.query_str == old(self).query_str,
                s == self.query_str@,
                self.len == self.query_str@.len(),
                ident_start as int <= self.position(),
                ident_end(s, ident_start as int) == ident_end(s, self.position()),
            decreases self.len - self.pos,
        {
            self.pos = self.pos + 1;
        }
        proof {
            if self.pos < self.len {
                assert(ident_end(s, self.position()) == self.position());
            }
            assert(self.position() == ident_end(s, ident_start as int));
        }
        let colon_found = self.pos < self.len && self.query_str.get_char(self.pos) == ':';
        let attribute_end = self.pos;
        if !colon_found || attribute_end == ident_start {
            proof {
                assert(!attribute_valid(s, i));
            }
            return self.read_freetext(start_idx);
        }
        proof {
            assert(attribute_valid(s, i));
        }
        let attribute_index = self.query_str.substring_char(ident_start, attribute_end);
        // consume the colon
        self.pos = self.pos + 1;

        // scan the comma-separated value list
        let mut values: Vec<&'a str> = Vec::new();
        let mut value_start_idx = self.pos;
        let ghost vs = values_spec(s, self.pos as int, self.pos as int);
        while self.pos < self.len
            invariant
                self.wf(),
                self.query_str == old(self).query_str,
                s == self.query_str@,
                i == old(self).position(),
                self.len == self.query_str@.len(),
                value_start_idx <= self.pos,
                s[i] == '+' || s[i] == '-',
                first_char == s[i],
                attribute_valid(s, i),
                attribute_end as int == ident_end(s, i + 1),
                attribute_end < value_start_idx,
                attribute_index@ == s.subrange(i + 1, attribute_end as int),
                vs == values_spec(s, attribute_end + 1, attribute_end + 1),
                ({
                    let cur = values_spec(s, value_start_idx as int, self.position());
                    vs.0 == Seq::new(values@.len(), |k: int| values@[k]@) + cur.0 && vs.1 == cur.1
                }),
            decreases self.len - self.pos,
        {
            let c = self.query_str.get_char(self.pos);
            if char_is_whitespace(c) {
                if value_start_idx < self.pos {
                    let v = self.query_str.substring_char(value_start_idx, self.pos);
                    values.push(v);
                    proof {
                        assert(Seq::new(values@.len(), |k: int| values@[k]@) =~= Seq::new(
                            (values@.len() - 1) as nat,
                            |k: int| values@[k]@,
                        ).push(s.subrange(value_start_idx as int, self.position())));
                    }
                } else {
                    proof {
                        assert(values_spec(s, value_start_idx as int, self.position()).0
                            =~= Seq::<Seq<char>>::empty());
                    }
                }
                proof {
                    assert(vs.0 =~= Seq::new(values@.len(), |k: int| values@[k]@));
                    assert(values_spec(s, value_start_idx as int, self.position()).1
                        == self.position());
                }
                return QueryToken::Attribute(first_char == '+', attribute_index, values);
            }
            if c == ',' {
                if value_start_idx < self.pos {
                    let v = self.query_str.substring_char(value_start_idx, self.pos);
                    values.push(v);
                    proof {
                        assert(Seq::new(values@.len(), |k: int| values@[k]@) =~= Seq::new(
                            (values@.len() - 1) as nat,
                            |k: int| values@[k]@,
                        ).push(s.subrange(value_start_idx as int, self.position())));
                    }
                }
                value_start_idx = self.pos + 1;
                proof {
                    let cur = values_spec(s, value_start_idx as int, self.position() + 1);
                    assert(vs.0 =~= Seq::new(values@.len(), |k: int| values@[k]@) + cur.0);
                }
            }
            self.pos = self.pos + 1;
        }
        // the last value may run to the end of the input
        if value_start_idx < self.pos {
            let v = self.query_str.substring_char(value_start_idx, self.pos);
            values.push(v);
            proof {
                assert(Seq::new(values@.len(), |k: int| values@[k]@) =~= Seq::new(
                    (values@.len() - 1) as nat,
                    |k: int| values@[k]@,
                ).push(s.subrange(value_start_idx as int, self.position())));
            }
        } else {
            proof {
                assert(values_spec(s, value_start_idx as int, self.position()).0
                    =~= Seq::<Seq<char>>::empty());
            }
        }
        proof {
            assert(vs.0 =~= Seq::new(values@.len(), |k: int| values@[k]@));
        }
        QueryToken::Attribute(first_char == '+', attribute_index, values)
    }

    /// Returns the next token found, or `None` if the input is
    /// exhausted.
    pub fn next_token(&mut self) -> (r: Option<QueryToken<'a>>)
        requires
            old(self).wf(),
        ensures
            final (self).wf(),
            final (self).input() == old(self).input(),
            old(self).position() <= final (self).position(),
            final (self).position() <= final (self).input().len(),
            match r {
                None => lex_spec(old(self).input(), old(self).position()) == Seq::<
                    TokenModel,
                >::empty() && final (self).position() == old(self).input().len(),
                Some(t) => old(self).position() < final (self).position() && lex_spec(
                    old(self).input(),
                    old(self).position(),
                ) == seq![t@] + lex_spec(old(self).input(), final (self).position()),
            },
    {
        let ghost s = self.query_str@;
        let ghost i0 = self.pos as int;
        self.skip_whitespace();
        let ghost j = self.pos as int;
        proof {
            lemma_scan_bounds(s, i0);
        }
        if self.pos >= self.len {
            return None;
        }
        let first_char = self.query_str.get_char(self.pos);
        let r = if first_char == '+' || first_char == '-' {
            self.read_attribute()
        } else {
            proof {
                assert(freetext_end(s, j) == token_at(s, j).1);
            }
            self.read_freetext(self.pos)
        };
        proof {
            lemma_token_advances(s, j);
            assert(lex_spec(s, i0) == seq![r@] + lex_spec(s, self.position()));
        }
        Some(r)
    }
}

} // verus!
