//! The parser: a recursive-descent driver with a bounded recursion depth
//! that builds the [`Value`] tree from the scanner's token stream.
//!
//! On success the root is a table, every position in the tree lies within
//! the document, and the token stream it consumed is exactly the one
//! `scan` accepts, which ties the two functions together.

use vstd::prelude::*;

use crate::date::Datetime;
use crate::error::Error;
use crate::num::{spec_strip_us, spec_strip_us_from};
use crate::scan::{
    lemma_model_pos_bounded, lemma_next_index, lemma_stream_ok_step, model_token, next_index,
    stream_ok, Scanner,
};
use crate::token::{Pos, QuoteType, Token, TokenType};
use crate::unicode::byte_at;
use crate::value::{pos_bounded, spec_type_str, spec_value_pos, Value};

verus! {

/// The recursion limit: entries deeper than this are rejected.
pub const MAX_DEPTH: usize = 64;

/// What every parser step guarantees of the scanner: well-formedness is
/// kept, the input is unchanged, and the position only moves forward.
pub open spec fn sc_step(a: Scanner, b: Scanner) -> bool {
    &&& b.wf()
    &&& b.gsv() == a.gsv()
    &&& a.cur() <= b.cur() <= a.gsv().len()
}

/// What a successful parser step guarantees: the question whether the
/// stream is clean is unchanged, because only clean tokens were consumed.
pub open spec fn sc_iff(a: Scanner, b: Scanner) -> bool {
    stream_ok(a.gsv(), b.cur()) <==> stream_ok(a.gsv(), a.cur())
}

/// The total byte length of the scanner's document.
pub open spec fn sc_total(a: Scanner) -> int {
    byte_at(a.gsv(), a.gsv().len() as int)
}

/// Which token kinds `consume` may ask for.
pub open spec fn is_structural(t: TokenType) -> bool {
    ||| t is Equals
    ||| t is Dot
    ||| t is Comma
    ||| t is LeftBracket
    ||| t is RightBracket
    ||| t is RightBrace
}

/// Whether `a` and `want` are the same structural kind.
pub open spec fn spec_same_kind(a: TokenType, want: TokenType) -> bool {
    match want {
        TokenType::Equals => a is Equals,
        TokenType::Dot => a is Dot,
        TokenType::Comma => a is Comma,
        TokenType::LeftBracket => a is LeftBracket,
        TokenType::RightBracket => a is RightBracket,
        TokenType::RightBrace => a is RightBrace,
        _ => false,
    }
}

/// Whether `a` is of the structural kind `want`.
fn kind_matches(a: &TokenType, want: &TokenType) -> (r: bool)
    ensures
        r == spec_same_kind(*a, *want),
{
    match want {
        TokenType::Equals => matches!(a, TokenType::Equals),
        TokenType::Dot => matches!(a, TokenType::Dot),
        TokenType::Comma => matches!(a, TokenType::Comma),
        TokenType::LeftBracket => matches!(a, TokenType::LeftBracket),
        TokenType::RightBracket => matches!(a, TokenType::RightBracket),
        TokenType::RightBrace => matches!(a, TokenType::RightBrace),
        _ => false,
    }
}

/// A parse error with a fixed reason.
fn parse_error(reason: &str, position: Pos) -> (r: Error)
    ensures
        r matches Error::ParseError { reason: rr, position: pp } && rr@ == reason@ && pp
            == position,
{
    Error::ParseError { reason: String::from_str(reason), position }
}

/// A parse error whose reason is `prefix`, the offending lexeme, and a
/// closing quote.
fn parse_error_at(prefix: &str, tok: &Token) -> (r: Error)
    ensures
        r matches Error::ParseError { reason: rr, position: pp } && rr@ == prefix@ + tok.lexeme@
            + "'"@ && pp == tok.pos,
{
    let mut text = String::from_str(prefix);
    text.append(tok.lexeme.as_str());
    text.append("'");
    Error::ParseError { reason: text, position: tok.pos }
}

/// Reads the next token, which must be of the structural kind `want`.
/// An error token surfaces as a lexical error; any other mismatch is a
/// parse error at the token.
fn consume(s: &mut Scanner, want: TokenType) -> (r: Result<Token, Error>)
    requires
        old(s).wf(),
        is_structural(want),
    ensures
        sc_step(*old(s), *final(s)),
        tok_res_matches(r, final(s).cur(), m_consume(old(s).gsv(), old(s).cur(), want)),
        r is Ok ==> {
            &&& spec_same_kind(r->Ok_0.type_, want)
            &&& old(s).cur() < final(s).cur()
            &&& sc_iff(*old(s), *final(s))
            &&& r->Ok_0.pos.byte as int <= sc_total(*old(s))
        },
        r matches Err(e) ==> crate::error::spec_position(e).byte as int <= sc_total(*old(s)),
{
    let ghost gsv = old(s).gsv();
    let ghost at = old(s).cur();
    proof {
        s.lemma_wf();
        lemma_next_index(gsv, at);
        lemma_stream_ok_step(gsv, at);
        lemma_model_pos_bounded(gsv, at);
    }
    let tok = s.next_token();
    proof {
        assert(token_view(tok) == model_token(gsv, at));
    }
    if kind_matches(&tok.type_, &want) {
        Ok(tok)
    } else {
        match tok.type_ {
            TokenType::Error(error, _) => Err(Error::Scan { error, position: tok.pos }),
            _ => Err(parse_error_at("expected structural token, got '", &tok)),
        }
    }
}

/// Reads the next token, which must be able to stand as a key fragment.
/// An error token surfaces as a lexical error.
fn consume_key(s: &mut Scanner) -> (r: Result<Token, Error>)
    requires
        old(s).wf(),
    ensures
        sc_step(*old(s), *final(s)),
        tok_res_matches(r, final(s).cur(), m_consume_key(old(s).gsv(), old(s).cur())),
        r is Ok ==> {
            &&& crate::token::spec_may_be_key(r->Ok_0.type_)
            &&& !(r->Ok_0.type_ is Error)
            &&& old(s).cur() < final(s).cur()
            &&& sc_iff(*old(s), *final(s))
            &&& r->Ok_0.pos.byte as int <= sc_total(*old(s))
        },
        r matches Err(e) ==> crate::error::spec_position(e).byte as int <= sc_total(*old(s)),
{
    let ghost gsv = old(s).gsv();
    let ghost at = old(s).cur();
    proof {
        s.lemma_wf();
        lemma_next_index(gsv, at);
        lemma_stream_ok_step(gsv, at);
        lemma_model_pos_bounded(gsv, at);
    }
    let tok = s.next_token();
    proof {
        assert(token_view(tok) == model_token(gsv, at));
    }
    match tok.type_ {
        TokenType::Error(error, _) => Err(Error::Scan { error, position: tok.pos }),
        _ => {
            if tok.type_.may_be_key() {
                Ok(tok)
            } else {
                Err(parse_error_at("expected non-symbol for key name, got '", &tok))
            }
        },
    }
}

/// Removes every underscore from `s`.
fn strip_us_str(s: &str) -> (r: String)
    ensures
        r@ == spec_strip_us(s@),
{
    let n = s.unicode_len();
    let mut out = String::new();
    let mut i: usize = 0;
    while i < n
        invariant
            0 <= i <= n,
            n == s@.len(),
            spec_strip_us(s@) == out@ + spec_strip_us_from(s@, i as int),
        decreases n - i,
    {
        let c = s.get_char(i);
        if c != '_' {
            let piece = s.substring_char(i, i + 1);
            proof {
                assert(piece@ =~= seq![s@[i as int]]);
                assert(out@ + (seq![s@[i as int]] + spec_strip_us_from(s@, i + 1)) =~= (out@
                    + piece@) + spec_strip_us_from(s@, i + 1));
            }
            out.append(piece);
        }
        i = i + 1;
    }
    proof {
        assert(out@ + spec_strip_us_from(s@, i as int) =~= out@);
    }
    out
}

/// The quotes a string lexeme carries on each side.
pub open spec fn spec_quote_n(qt: QuoteType) -> int {
    match qt {
        QuoteType::Single | QuoteType::Double => 1,
        QuoteType::TripleSingle | QuoteType::TripleDouble => 3,
    }
}

/// The quotes a string lexeme carries for its quote kind: one or three on
/// each side.
fn quote_len(qt: &QuoteType) -> (r: usize)
    ensures
        r as int == spec_quote_n(*qt),
{
    match qt {
        QuoteType::Single | QuoteType::Double => 1,
        QuoteType::TripleSingle | QuoteType::TripleDouble => 3,
    }
}

/// The text of a quote-stripped lexeme: `n` characters off each side,
/// or nothing when the lexeme is shorter than its quotes.
pub open spec fn spec_strip_quotes(s: Seq<char>, n: int) -> Seq<char> {
    if 0 <= 2 * n <= s.len() {
        s.subrange(n, s.len() - n)
    } else {
        Seq::<char>::empty()
    }
}

/// The lexeme with `n` quote characters removed from each side; shorter
/// lexemes lose everything.
fn strip_quotes(lexeme: &str, n: usize) -> (r: String)
    ensures
        r@ == spec_strip_quotes(lexeme@, n as int),
{
    let len = lexeme.unicode_len();
    if n <= usize::MAX / 2 && 2 * n <= len {
        String::from_str(lexeme.substring_char(n, len - n))
    } else {
        String::new()
    }
}

/// What binding `value` along `path[k..]` does to a table with entries
/// `entries` at position `cpos`: the last fragment is bound by
/// [`crate::value::spec_insert`]; an earlier fragment updates its child
/// in place when present (the child must be a table), and grows a fresh
/// empty table at the fragment's position when absent.  The updated
/// child is the result's own entry at that fragment.
pub open spec fn insert_path_post(
    entries: Seq<(String, Value)>,
    cpos: Pos,
    path: Seq<Token>,
    k: int,
    value: Value,
    result: Value,
) -> bool
    decreases path.len() - k,
{
    &&& result is Table
    &&& spec_value_pos(result) == cpos
    &&& if k < 0 || k + 1 >= path.len() {
        result->Table_key_values@ == crate::value::spec_insert(
            entries,
            path[if 0 <= k < path.len() {
                k
            } else {
                0
            }].lexeme,
            value,
        )
    } else {
        let key = path[k].lexeme;
        let newchild = crate::value::spec_lookup(result->Table_key_values@, key@);
        &&& newchild is Some
        &&& result->Table_key_values@ == crate::value::spec_insert(entries, key, newchild->0)
        &&& match crate::value::spec_lookup(entries, key@) {
            Some(child) => child is Table && insert_path_post(
                child->Table_key_values@,
                spec_value_pos(child),
                path,
                k + 1,
                value,
                newchild->0,
            ),
            None => insert_path_post(
                Seq::<(String, Value)>::empty(),
                path[k].pos,
                path,
                k + 1,
                value,
                newchild->0,
            ),
        }
    }
}

/// Walks `path[k..]` down from `current`, creating intermediate tables,
/// and binds the last fragment to `value`.  Every prefix node must be a
/// table; the error position is the key-value pair's `=` sign.
fn insert_path(
    current: Value,
    path: &Vec<Token>,
    k: usize,
    value: Value,
    epos: Pos,
    Ghost(b): Ghost<int>,
    Ghost(curm): Ghost<ValueM>,
    Ghost(valm): Ghost<ValueM>,
) -> (r: Result<Value, Error>)
    requires
        k < path@.len(),
        pos_bounded(current, b),
        pos_bounded(value, b),
        epos.byte as int <= b,
        crate::value::is_view(current, curm),
        crate::value::is_view(value, valm),
        forall|j: int| 0 <= j < path@.len() ==> #[trigger] path@[j].pos.byte as int <= b,
    ensures
        r is Ok ==> r->Ok_0 is Table && current is Table && spec_value_pos(r->Ok_0)
            == spec_value_pos(current) && pos_bounded(r->Ok_0, b) && insert_path_post(
            current->Table_key_values@,
            spec_value_pos(current),
            path@,
            k as int,
            value,
            r->Ok_0,
        ),
        ({
            let m = m_insert_path(curm, path_view(path@), k as int, valm, epos);
            match r {
                Ok(v) => m is Ok && crate::value::is_view(v, m->Ok_0),
                Err(e) => m is Err && crate::error::err_view(e) == m->Err_0,
            }
        }),
        r matches Err(e) ==> crate::error::spec_position(e).byte as int <= b,
    decreases path@.len() - k,
{
    let ghost current0 = current;
    let ghost value0 = value;
    proof {
        assert(path_view(path@)[k as int] == token_view(path@[k as int]));
    }
    match current {
        Value::Table { mut key_values, pos } => {
            let ghost entries0 = key_values@;
            let ghost entriesm = curm->Table_entries;
            proof {
                assert(curm matches ValueM::Table { entries, pos: mpos } && entries == entriesm
                    && mpos == pos);
                assert(crate::value::entries_view(entries0, entriesm));
            }
            let frag = &path[k];
            let plen = path.len();
            if k + 1 == plen {
                let mut table = Value::Table { key_values, pos };
                table.insert(frag.lexeme.clone(), value);
                proof {
                    lemma_insert_pos_bounded(entries0, frag.lexeme, value0, b);
                    assert(insert_path_post(entries0, pos, path@, k as int, value0, table));
                    crate::value::lemma_view_insert(entries0, entriesm, frag.lexeme, value0, valm);
                    assert(crate::value::is_view(
                        table,
                        ValueM::Table {
                            entries: m_insert(entriesm, path_view(path@)[k as int].lexeme, valm),
                            pos,
                        },
                    ));
                }
                Ok(table)
            } else {
                let idx = crate::value::find_key(&key_values, frag.lexeme.as_str());
                proof {
                    crate::value::lemma_view_find(entries0, entriesm, frag.lexeme@, 0);
                }
                if idx < key_values.len() {
                    let pair = key_values.remove(idx);
                    let ghost childm = entriesm[idx as int].1;
                    proof {
                        assert(m_lookup(entriesm, frag.lexeme@) == Some(childm));
                        assert(crate::value::is_view(pair.1, childm));
                    }
                    let child = match insert_path(
                        pair.1,
                        path,
                        k + 1,
                        value,
                        epos,
                        Ghost(b),
                        Ghost(childm),
                        Ghost(valm),
                    ) {
                        Ok(v) => v,
                        Err(e) => {
                            return Err(e);
                        },
                    };
                    let ghost oldchild = pair.1;
                    let ghost newchild = child;
                    let ghost ncm = m_insert_path(childm, path_view(path@), k + 1, valm, epos)->Ok_0;
                    key_values.insert(idx, (pair.0, child));
                    proof {
                        assert forall|j: int|
                            0 <= j < key_values@.len() implies pos_bounded(
                            #[trigger] key_values@[j].1,
                            b,
                        ) by {
                            if j < idx {
                                assert(key_values@[j] == entries0[j]);
                            } else if j > idx {
                                assert(key_values@[j] == entries0[j]);
                            }
                        }
                        crate::value::lemma_find_props(entries0, frag.lexeme@, 0);
                        assert(crate::value::spec_lookup(entries0, frag.lexeme@) == Some(
                            oldchild,
                        ));
                        assert(key_values@ =~= crate::value::spec_insert(
                            entries0,
                            frag.lexeme,
                            newchild,
                        ));
                        let out = Value::Table { key_values: key_values, pos };
                        assert(out->Table_key_values@ == crate::value::spec_insert(
                            entries0,
                            path@[k as int].lexeme,
                            newchild,
                        ));
                        crate::value::lemma_insert_preserves_siblings(
                            entries0,
                            path@[k as int].lexeme,
                            newchild,
                        );
                        assert(crate::value::spec_lookup(
                            out->Table_key_values@,
                            path@[k as int].lexeme@,
                        ) == Some(newchild));
                        assert(crate::value::spec_lookup(entries0, path@[k as int].lexeme@)
                            == Some(oldchild));
                        assert(insert_path_post(
                            oldchild->Table_key_values@,
                            spec_value_pos(oldchild),
                            path@,
                            k + 1,
                            value0,
                            newchild,
                        ));
                        assert(insert_path_post(entries0, pos, path@, k as int, value0, out));
                        crate::value::lemma_view_insert(
                            entries0,
                            entriesm,
                            frag.lexeme,
                            newchild,
                            ncm,
                        );
                        assert(crate::value::is_view(
                            out,
                            ValueM::Table {
                                entries: m_insert(entriesm, frag.lexeme@, ncm),
                                pos,
                            },
                        ));
                    }
                    Ok(Value::Table { key_values, pos })
                } else {
                    let child = Value::new_table(frag.pos);
                    let ghost fresh = child;
                    proof {
                        assert(m_lookup(entriesm, frag.lexeme@) is None);
                        assert(crate::value::is_view(child, m_new_table(frag.pos)));
                    }
                    let child = match insert_path(
                        child,
                        path,
                        k + 1,
                        value,
                        epos,
                        Ghost(b),
                        Ghost(m_new_table(frag.pos)),
                        Ghost(valm),
                    ) {
                        Ok(v) => v,
                        Err(e) => {
                            return Err(e);
                        },
                    };
                    let ghost newchild = child;
                    let ghost ncm = m_insert_path(
                        m_new_table(frag.pos),
                        path_view(path@),
                        k + 1,
                        valm,
                        epos,
                    )->Ok_0;
                    key_values.push((frag.lexeme.clone(), child));
                    proof {
                        assert forall|j: int|
                            0 <= j < key_values@.len() implies pos_bounded(
                            #[trigger] key_values@[j].1,
                            b,
                        ) by {
                            if j < entries0.len() {
                                assert(key_values@[j] == entries0[j]);
                            }
                        }
                        crate::value::lemma_find_props(entries0, frag.lexeme@, 0);
                        assert(crate::value::spec_lookup(entries0, frag.lexeme@) is None);
                        assert(key_values@ =~= crate::value::spec_insert(
                            entries0,
                            frag.lexeme,
                            newchild,
                        ));
                        let out = Value::Table { key_values: key_values, pos };
                        assert(out->Table_key_values@ == crate::value::spec_insert(
                            entries0,
                            path@[k as int].lexeme,
                            newchild,
                        ));
                        crate::value::lemma_insert_preserves_siblings(
                            entries0,
                            path@[k as int].lexeme,
                            newchild,
                        );
                        assert(crate::value::spec_lookup(
                            out->Table_key_values@,
                            path@[k as int].lexeme@,
                        ) == Some(newchild));
                        assert(crate::value::spec_lookup(entries0, path@[k as int].lexeme@)
                            is None);
                        assert(fresh is Table && fresh->Table_key_values@ == Seq::<(
                            String,
                            Value,
                        )>::empty() && spec_value_pos(fresh) == path@[k as int].pos);
                        assert(insert_path_post(
                            Seq::<(String, Value)>::empty(),
                            path@[k as int].pos,
                            path@,
                            k + 1,
                            value0,
                            newchild,
                        ));
                        assert(insert_path_post(entries0, pos, path@, k as int, value0, out));
                        crate::value::lemma_view_insert(
                            entries0,
                            entriesm,
                            frag.lexeme,
                            newchild,
                            ncm,
                        );
                        assert(crate::value::is_view(
                            out,
                            ValueM::Table {
                                entries: m_insert(entriesm, frag.lexeme@, ncm),
                                pos,
                            },
                        ));
                    }
                    Ok(Value::Table { key_values, pos })
                }
            }
        },
        _ => {
            proof {
                assert(spec_type_str(current0) == m_type_str(curm));
            }
            Err(
                Error::IncorrectType {
                    got: current.type_str(),
                    expected: "table",
                    position: epos,
                },
            )
        },
    }
}

/// Inserting a bounded value under a key keeps the whole table bounded.
proof fn lemma_insert_pos_bounded(
    entries: Seq<(String, Value)>,
    key: String,
    value: Value,
    b: int,
)
    requires
        forall|j: int| 0 <= j < entries.len() ==> pos_bounded(#[trigger] entries[j].1, b),
        pos_bounded(value, b),
    ensures
        forall|j: int|
            0 <= j < crate::value::spec_insert(entries, key, value).len() ==> pos_bounded(
                #[trigger] crate::value::spec_insert(entries, key, value)[j].1,
                b,
            ),
{
    crate::value::lemma_find_props(entries, key@, 0);
    let out = crate::value::spec_insert(entries, key, value);
    let idx = crate::value::spec_find(entries, key@, 0);
    assert forall|j: int| 0 <= j < out.len() implies pos_bounded(#[trigger] out[j].1, b) by {
        if idx < entries.len() {
            if j != idx {
                assert(out[j] == entries[j]);
            }
        } else {
            if j < entries.len() {
                assert(out[j] == entries[j]);
            }
        }
    }
}


/// Reads a dotted key path: a key, then any number of `.`-separated
/// keys.  Error tokens surface as lexical errors.
#[verifier::loop_isolation(false)]
fn parse_path(s: &mut Scanner) -> (r: Result<Vec<Token>, Error>)
    requires
        old(s).wf(),
    ensures
        sc_step(*old(s), *final(s)),
        ({
            let m = m_parse_path(old(s).gsv(), old(s).cur());
            match r {
                Ok(p) => m is Ok && path_view(p@) == m->Ok_0.0 && final(s).cur() == m->Ok_0.1,
                Err(e) => m is Err && crate::error::err_view(e) == m->Err_0,
            }
        }),
        r is Ok ==> {
            &&& r->Ok_0@.len() >= 1
            &&& old(s).cur() < final(s).cur()
            &&& sc_iff(*old(s), *final(s))
            &&& forall|j: int|
                0 <= j < r->Ok_0@.len() ==> (#[trigger] r->Ok_0@[j]).pos.byte as int <= sc_total(
                    *old(s),
                )
            &&& forall|j: int|
                0 <= j < r->Ok_0@.len() ==> crate::token::spec_may_be_key(
                    (#[trigger] r->Ok_0@[j]).type_,
                ) && !(r->Ok_0@[j].type_ is Error)
        },
        r matches Err(e) ==> crate::error::spec_position(e).byte as int <= sc_total(*old(s)),
{
    let ghost gsv = old(s).gsv();
    let ghost at0 = old(s).cur();
    proof {
        s.lemma_wf();
    }
    let first = match consume_key(s) {
        Ok(t) => t,
        Err(e) => {
            return Err(e);
        },
    };
    let mut names: Vec<Token> = Vec::new();
    names.push(first);
    proof {
        assert(path_view(names@) =~= seq![token_view(first)]);
    }
    loop
        invariant
            s.wf(),
            s.gsv() == gsv,
            at0 < s.cur() <= gsv.len(),
            stream_ok(gsv, s.cur()) <==> stream_ok(gsv, at0),
            names@.len() >= 1,
            m_path_loop(gsv, s.cur(), path_view(names@)) == m_parse_path(gsv, at0),
            forall|j: int|
                0 <= j < names@.len() ==> (#[trigger] names@[j]).pos.byte as int <= byte_at(
                    gsv,
                    gsv.len() as int,
                ),
            forall|j: int|
                0 <= j < names@.len() ==> crate::token::spec_may_be_key(
                    (#[trigger] names@[j]).type_,
                ) && !(names@[j].type_ is Error),
        decreases gsv.len() - s.cur(),
    {
        let ghost i = s.cur();
        let pk = s.peek_token();
        let at_end = s.is_at_end();
        let pk_may = pk.type_.may_be_key();
        let pk_dot = matches!(pk.type_, TokenType::Dot);
        if !((pk_may || pk_dot) && !at_end) {
            proof {
                assert(m_path_loop(gsv, i, path_view(names@)) == Ok::<
                    (Seq<crate::token::TokenM>, int),
                    ErrM,
                >((path_view(names@), i)));
            }
            return Ok(names);
        }
        let _dot = match consume(s, TokenType::Dot) {
            Ok(t) => t,
            Err(e) => {
                return Err(e);
            },
        };
        let key = match consume_key(s) {
            Ok(t) => t,
            Err(e) => {
                return Err(e);
            },
        };
        proof {
            assert(path_view(names@.push(key)) =~= path_view(names@).push(token_view(key)));
        }
        names.push(key);
    }
}

/// Reads one `key = value` pair: the dotted path, the `=` sign, the
/// value, and, when a date is followed by a bare time token, the stitched
/// combination of the two.
fn parse_kv_raw(s: &mut Scanner, depth: usize) -> (r: Result<(Vec<Token>, Value, Pos), Error>)
    requires
        old(s).wf(),
    ensures
        sc_step(*old(s), *final(s)),
        ({
            let m = m_parse_kv_raw(old(s).gsv(), old(s).cur(), depth as int);
            match r {
                Ok(t) => m is Ok && path_view(t.0@) == m->Ok_0.0 && crate::value::is_view(
                    t.1,
                    m->Ok_0.1,
                ) && t.2 == m->Ok_0.2 && final(s).cur() == m->Ok_0.3,
                Err(e) => m is Err && crate::error::err_view(e) == m->Err_0,
            }
        }),
        r is Ok ==> {
            &&& r->Ok_0.0@.len() >= 1
            &&& old(s).cur() < final(s).cur()
            &&& sc_iff(*old(s), *final(s))
            &&& pos_bounded(r->Ok_0.1, sc_total(*old(s)))
            &&& r->Ok_0.2.byte as int <= sc_total(*old(s))
            &&& forall|j: int|
                0 <= j < r->Ok_0.0@.len() ==> (#[trigger] r->Ok_0.0@[j]).pos.byte as int
                    <= sc_total(*old(s))
        },
        r matches Err(e) ==> crate::error::spec_position(e).byte as int <= sc_total(*old(s)),
    decreases 66 - depth, 0int,
{
    let ghost gsv = old(s).gsv();
    let ghost at0 = old(s).cur();
    proof {
        s.lemma_wf();
        lemma_model_pos_bounded(gsv, at0);
    }
    if depth > MAX_DEPTH {
        let pk = s.peek_token();
        return Err(parse_error("recursion limit exceeded", pk.pos));
    }
    let depth = depth + 1;
    let path = match parse_path(s) {
        Ok(p) => p,
        Err(e) => {
            return Err(e);
        },
    };
    let equals = match consume(s, TokenType::Equals) {
        Ok(t) => t,
        Err(e) => {
            return Err(e);
        },
    };
    let ghost at_v = s.cur();
    let mut value = match parse_value(s, depth) {
        Ok(v) => v,
        Err(e) => {
            return Err(e);
        },
    };
    let ghost valm = m_parse_value(gsv, at_v, depth as int)->Ok_0.0;
    proof {
        assert(crate::value::is_view(value, valm));
        assert((value matches Value::Datetime { datetime, .. } && datetime.date is Some
            && datetime.time is None) == m_is_just_date(valm));
    }
    let pk = s.peek_token();
    proof {
        assert(token_view(pk) == model_token(gsv, s.cur()));
    }
    if pk.type_.is_time() && value.is_just_date() {
        let ghost at = s.cur();
        proof {
            s.lemma_wf();
            lemma_next_index(gsv, at);
            lemma_stream_ok_step(gsv, at);
        }
        let t = s.next_token();
        match t.type_ {
            TokenType::Time { time, offset } => {
                value = match value {
                    Value::Datetime { datetime, pos } => Value::Datetime {
                        datetime: Datetime { date: datetime.date, time: Some(time), offset },
                        pos,
                    },
                    other => other,
                };
            },
            _ => {
                proof {
                    assert(false);
                }
            },
        }
    }
    Ok((path, value, equals.pos))
}

/// Reads one `key = value` pair and binds it along its dotted path in
/// `current`, which must be a table: the result is `current` with
/// exactly one dotted-path insertion applied, as
/// [`insert_path_post`] states.
fn parse_kv(s: &mut Scanner, current: Value, depth: usize, Ghost(curm): Ghost<ValueM>) -> (r:
    Result<Value, Error>)
    requires
        old(s).wf(),
        pos_bounded(current, sc_total(*old(s))),
        crate::value::is_view(current, curm),
    ensures
        sc_step(*old(s), *final(s)),
        val_res_matches(
            r,
            final(s).cur(),
            m_parse_kv(old(s).gsv(), old(s).cur(), curm, depth as int),
        ),
        r is Ok ==> {
            &&& r->Ok_0 is Table
            &&& current is Table
            &&& spec_value_pos(r->Ok_0) == spec_value_pos(current)
            &&& pos_bounded(r->Ok_0, sc_total(*old(s)))
            &&& old(s).cur() < final(s).cur()
            &&& sc_iff(*old(s), *final(s))
            &&& exists|p: Seq<Token>, v: Value|
                p.len() >= 1 && #[trigger] insert_path_post(
                    current->Table_key_values@,
                    spec_value_pos(current),
                    p,
                    0,
                    v,
                    r->Ok_0,
                )
        },
        r matches Err(e) ==> crate::error::spec_position(e).byte as int <= sc_total(*old(s)),
    decreases 66 - depth, 1int,
{
    let ghost b = sc_total(*old(s));
    let ghost gsv = old(s).gsv();
    let ghost at0 = old(s).cur();
    proof {
        s.lemma_wf();
        reveal(m_parse_kv);
    }
    let (path, value, epos) = match parse_kv_raw(s, depth) {
        Ok(t) => t,
        Err(e) => {
            return Err(e);
        },
    };
    let ghost valm = m_parse_kv_raw(gsv, at0, depth as int)->Ok_0.1;
    insert_path(current, &path, 0, value, epos, Ghost(b), Ghost(curm), Ghost(valm))
}

/// What a value read at token index `i` must be, given the token the
/// model finds there: leaves carry the token's payload and position,
/// floats and strings carry the token's (underscore- or quote-stripped)
/// text, a sign reads the following token, and brackets open an array or
/// a table.  Token kinds the reader rejects constrain nothing.
pub open spec fn value_of_token(gs: Seq<Seq<char>>, i: int, v: Value) -> bool
    decreases gs.len() - i,
{
    let m = crate::scan::model_token(gs, i);
    match m.type_ {
        TokenType::Integer(n) => v == (Value::Integer { value: n, pos: m.pos }),
        TokenType::Float => v matches Value::Float { repr, pos } && repr@ == spec_strip_us(
            m.lexeme,
        ) && pos == m.pos,
        TokenType::Boolean(bv) => v == (Value::Boolean { value: bv, pos: m.pos }),
        TokenType::String(qt) => v matches Value::String { quote_type, value, pos } && quote_type
            == qt && value@ == spec_strip_quotes(m.lexeme, spec_quote_n(qt)) && pos == m.pos,
        TokenType::Date(d) => v == (
        Value::Datetime {
            datetime: Datetime { date: Some(d), time: None, offset: None },
            pos: m.pos,
        }),
        TokenType::Time { time, offset } => v == (
        Value::Datetime {
            datetime: Datetime { date: None, time: Some(time), offset },
            pos: m.pos,
        }),
        TokenType::Datetime(dt) => v == (Value::Datetime { datetime: dt, pos: m.pos }),
        TokenType::LeftBracket => v is Array,
        TokenType::LeftBrace => v is Table,
        TokenType::Ident => {
            if m.lexeme == seq!['i', 'n', 'f'] {
                v matches Value::Float { repr, pos } && repr@ == seq!['i', 'n', 'f'] && pos
                    == m.pos
            } else if m.lexeme == seq!['n', 'a', 'n'] {
                v matches Value::Float { repr, pos } && repr@ == seq!['n', 'a', 'n'] && pos
                    == m.pos
            } else if m.lexeme == seq!['t', 'r', 'u', 'e'] {
                v == (Value::Boolean { value: true, pos: m.pos })
            } else if m.lexeme == seq!['f', 'a', 'l', 's', 'e'] {
                v == (Value::Boolean { value: false, pos: m.pos })
            } else {
                true
            }
        },
        TokenType::Minus => {
            let j = crate::scan::next_index(gs, i);
            let m2 = crate::scan::model_token(gs, j);
            match m2.type_ {
                TokenType::Integer(n) => v == (
                Value::Integer { value: vstd::wrapping::i64_specs::wrapping_sub(0, n), pos: m2.pos }),
                TokenType::Float => v matches Value::Float { repr, pos } && repr@ == seq!['-']
                    + spec_strip_us(m2.lexeme) && pos == m2.pos,
                TokenType::Ident => {
                    if m2.lexeme == seq!['i', 'n', 'f'] {
                        v matches Value::Float { repr, pos } && repr@ == seq!['-', 'i', 'n', 'f']
                            && pos == m2.pos
                    } else if m2.lexeme == seq!['n', 'a', 'n'] {
                        v matches Value::Float { repr, pos } && repr@ == seq!['-', 'n', 'a', 'n']
                            && pos == m2.pos
                    } else {
                        true
                    }
                },
                _ => true,
            }
        },
        TokenType::Plus => {
            let j = crate::scan::next_index(gs, i);
            if i < j <= gs.len() {
                value_of_token(gs, j, v)
            } else {
                true
            }
        },
        _ => true,
    }
}

/// Reads one value: an array, an inline table, a leaf, or a signed
/// number; `+` re-reads the following numeric value, `-` negates it.
#[verifier::rlimit(100)]
fn parse_value(s: &mut Scanner, depth: usize) -> (r: Result<Value, Error>)
    requires
        old(s).wf(),
    ensures
        sc_step(*old(s), *final(s)),
        val_res_matches(
            r,
            final(s).cur(),
            m_parse_value(old(s).gsv(), old(s).cur(), depth as int),
        ),
        r is Ok ==> {
            &&& pos_bounded(r->Ok_0, sc_total(*old(s)))
            &&& old(s).cur() < final(s).cur()
            &&& sc_iff(*old(s), *final(s))
            &&& value_of_token(old(s).gsv(), old(s).cur(), r->Ok_0)
        },
        r matches Err(e) ==> crate::error::spec_position(e).byte as int <= sc_total(*old(s)),
    decreases 66 - depth, 0int,
{
    let ghost gsv = old(s).gsv();
    let ghost at0 = old(s).cur();
    proof {
        s.lemma_wf();
        lemma_model_pos_bounded(gsv, at0);
    }
    if depth > MAX_DEPTH {
        let pk = s.peek_token();
        return Err(parse_error("recursion limit exceeded", pk.pos));
    }
    let depth = depth + 1;
    proof {
        s.lemma_wf();
        lemma_next_index(gsv, at0);
        lemma_stream_ok_step(gsv, at0);
        lemma_model_pos_bounded(gsv, at0);
        reveal_strlit("inf");
        reveal_strlit("nan");
        reveal_strlit("true");
        reveal_strlit("false");
        reveal_strlit("-inf");
        reveal_strlit("-nan");
        reveal_strlit("-");
        assert("inf"@ =~= seq!['i', 'n', 'f']);
        assert("nan"@ =~= seq!['n', 'a', 'n']);
        assert("true"@ =~= seq!['t', 'r', 'u', 'e']);
        assert("false"@ =~= seq!['f', 'a', 'l', 's', 'e']);
        assert("-inf"@ =~= seq!['-', 'i', 'n', 'f']);
        assert("-nan"@ =~= seq!['-', 'n', 'a', 'n']);
        assert("-"@ =~= seq!['-']);
    }
    let next = s.next_token();
    proof {
        assert(token_view(next) == model_token(gsv, at0));
    }
    match next.type_ {
        TokenType::LeftBracket => parse_array(s, depth),
        TokenType::LeftBrace => parse_table(s, depth),
        TokenType::String(quote_type) => {
            let n = quote_len(&quote_type);
            let value = strip_quotes(next.lexeme.as_str(), n);
            Ok(Value::String { quote_type, value, pos: next.pos })
        },
        TokenType::Plus => {
            let pk = s.peek_token();
            proof {
                assert(token_view(pk) == model_token(gsv, s.cur()));
            }
            let again = match pk.type_ {
                TokenType::Integer(_) => true,
                TokenType::Float => true,
                TokenType::Ident => crate::chars::str_eq(pk.lexeme.as_str(), "inf")
                    || crate::chars::str_eq(pk.lexeme.as_str(), "nan"),
                _ => false,
            };
            if again {
                parse_value(s, depth)
            } else {
                Err(parse_error("expecting integer, float, nan, or inf after +", next.pos))
            }
        },
        TokenType::Minus => {
            let ghost at1 = s.cur();
            proof {
                s.lemma_wf();
                lemma_next_index(gsv, at1);
                lemma_stream_ok_step(gsv, at1);
                lemma_model_pos_bounded(gsv, at1);
            }
            let pk = s.peek_token();
            proof {
                assert(token_view(pk) == model_token(gsv, at1));
            }
            match pk.type_ {
                TokenType::Integer(num) => {
                    let _ = s.next_token();
                    Ok(Value::Integer { value: (0i64).wrapping_sub(num), pos: pk.pos })
                },
                TokenType::Float => {
                    let t = s.next_token();
                    let mut repr = String::from_str("-");
                    let stripped = strip_us_str(t.lexeme.as_str());
                    repr.append(stripped.as_str());
                    Ok(Value::Float { repr, pos: pk.pos })
                },
                TokenType::Ident => {
                    if crate::chars::str_eq(pk.lexeme.as_str(), "inf") {
                        let _ = s.next_token();
                        Ok(Value::Float { repr: String::from_str("-inf"), pos: pk.pos })
                    } else if crate::chars::str_eq(pk.lexeme.as_str(), "nan") {
                        let _ = s.next_token();
                        Ok(Value::Float { repr: String::from_str("-nan"), pos: pk.pos })
                    } else {
                        Err(
                            parse_error(
                                "expecting integer, float, nan, or inf after -",
                                next.pos,
                            ),
                        )
                    }
                },
                _ => Err(
                    parse_error("expecting integer, float, nan, or inf after -", next.pos),
                ),
            }
        },
        TokenType::Integer(value) => Ok(Value::Integer { value, pos: next.pos }),
        TokenType::Float => {
            let repr = strip_us_str(next.lexeme.as_str());
            Ok(Value::Float { repr, pos: next.pos })
        },
        TokenType::Boolean(value) => Ok(Value::Boolean { value, pos: next.pos }),
        TokenType::Time { time, offset } => Ok(
            Value::Datetime {
                datetime: Datetime { date: None, time: Some(time), offset },
                pos: next.pos,
            },
        ),
        TokenType::Date(date) => Ok(
            Value::Datetime {
                datetime: Datetime { date: Some(date), time: None, offset: None },
                pos: next.pos,
            },
        ),
        TokenType::Datetime(datetime) => Ok(Value::Datetime { datetime, pos: next.pos }),
        TokenType::Ident => {
            if crate::chars::str_eq(next.lexeme.as_str(), "inf") {
                Ok(Value::Float { repr: String::from_str("inf"), pos: next.pos })
            } else if crate::chars::str_eq(next.lexeme.as_str(), "nan") {
                Ok(Value::Float { repr: String::from_str("nan"), pos: next.pos })
            } else if crate::chars::str_eq(next.lexeme.as_str(), "true") {
                Ok(Value::Boolean { value: true, pos: next.pos })
            } else if crate::chars::str_eq(next.lexeme.as_str(), "false") {
                Ok(Value::Boolean { value: false, pos: next.pos })
            } else {
                Err(parse_error_at("unsupported value token, got '", &next))
            }
        },
        TokenType::Error(error, _) => Err(Error::Scan { error, position: next.pos }),
        _ => Err(parse_error_at("unsupported value token, got '", &next)),
    }
}

/// Reads the elements of an array whose `[` has just been consumed:
/// values separated by commas, a trailing comma allowed, closed by `]`.
#[verifier::loop_isolation(false)]
#[verifier::rlimit(100)]
fn parse_array(s: &mut Scanner, depth: usize) -> (r: Result<Value, Error>)
    requires
        old(s).wf(),
    ensures
        sc_step(*old(s), *final(s)),
        val_res_matches(
            r,
            final(s).cur(),
            m_parse_array(old(s).gsv(), old(s).cur(), depth as int),
        ),
        r is Ok ==> {
            &&& r->Ok_0 is Array
            &&& pos_bounded(r->Ok_0, sc_total(*old(s)))
            &&& old(s).cur() <= final(s).cur()
            &&& sc_iff(*old(s), *final(s))
        },
        r matches Err(e) ==> crate::error::spec_position(e).byte as int <= sc_total(*old(s)),
    decreases 66 - depth, 0int,
{
    let ghost gsv = old(s).gsv();
    let ghost at0 = old(s).cur();
    let ghost d0 = depth as int;
    proof {
        s.lemma_wf();
        lemma_model_pos_bounded(gsv, at0);
    }
    if depth > MAX_DEPTH {
        let pk = s.peek_token();
        return Err(parse_error("recursion limit exceeded", pk.pos));
    }
    let depth = depth + 1;
    let ghost d2 = depth as int;
    let pos = s.peek_token().pos;
    let pk0 = s.peek_token();
    proof {
        assert(token_view(pk0) == model_token(gsv, at0));
    }
    if matches!(pk0.type_, TokenType::RightBracket) {
        let _rb = match consume(s, TokenType::RightBracket) {
            Ok(t) => t,
            Err(e) => {
                return Err(e);
            },
        };
        let out = Value::Array { values: Vec::new(), pos };
        proof {
            assert(crate::value::is_view(
                out,
                ValueM::Array { elems: Seq::<ValueM>::empty(), pos },
            ));
        }
        return Ok(out);
    }
    let mut values: Vec<Value> = Vec::new();
    let v0 = match parse_value(s, depth) {
        Ok(v) => v,
        Err(e) => {
            return Err(e);
        },
    };
    let ghost v0m = m_parse_value(gsv, at0, d2)->Ok_0.0;
    values.push(v0);
    let ghost mut accM: Seq<ValueM> = seq![v0m];
    let ghost i1 = s.cur();
    let ghost mrest = m_array_loop(gsv, i1, d2, seq![v0m]);
    proof {
        assert(crate::value::elems_view(values@, accM));
    }
    loop
        invariant
            s.wf(),
            s.gsv() == gsv,
            at0 <= s.cur() <= gsv.len(),
            stream_ok(gsv, s.cur()) <==> stream_ok(gsv, at0),
            m_array_loop(gsv, s.cur(), d2, accM) == mrest,
            crate::value::elems_view(values@, accM),
            forall|j: int|
                0 <= j < values@.len() ==> pos_bounded(
                    #[trigger] values@[j],
                    byte_at(gsv, gsv.len() as int),
                ),
        decreases gsv.len() - s.cur(),
    {
        let ghost i = s.cur();
        let pk = s.peek_token();
        let at_end = s.is_at_end();
        proof {
            assert(token_view(pk) == model_token(gsv, i));
        }
        if !(matches!(pk.type_, TokenType::Comma) && !at_end) {
            let _rb = match consume(s, TokenType::RightBracket) {
                Ok(t) => t,
                Err(e) => {
                    return Err(e);
                },
            };
            let out = Value::Array { values, pos };
            proof {
                assert(crate::value::is_view(out, ValueM::Array { elems: accM, pos }));
            }
            return Ok(out);
        }
        let _comma = match consume(s, TokenType::Comma) {
            Ok(t) => t,
            Err(e) => {
                return Err(e);
            },
        };
        let pk2 = s.peek_token();
        proof {
            assert(token_view(pk2) == model_token(gsv, s.cur()));
        }
        if matches!(pk2.type_, TokenType::RightBracket) {
            let _rb = match consume(s, TokenType::RightBracket) {
                Ok(t) => t,
                Err(e) => {
                    return Err(e);
                },
            };
            let out = Value::Array { values, pos };
            proof {
                assert(crate::value::is_view(out, ValueM::Array { elems: accM, pos }));
            }
            return Ok(out);
        }
        let ghost iv = s.cur();
        let v = match parse_value(s, depth) {
            Ok(v) => v,
            Err(e) => {
                return Err(e);
            },
        };
        let ghost vm = m_parse_value(gsv, iv, d2)->Ok_0.0;
        proof {
            accM = accM.push(vm);
            assert(crate::value::elems_view(values@.push(v), accM));
        }
        values.push(v);
    }
}

/// Reads the pairs of an inline table whose `{` has just been consumed:
/// `key = value` pairs separated by commas, a trailing comma allowed
/// (including across lines), closed by `}`.
#[verifier::loop_isolation(false)]
#[verifier::rlimit(100)]
#[verifier::spinoff_prover]
fn parse_table(s: &mut Scanner, depth: usize) -> (r: Result<Value, Error>)
    requires
        old(s).wf(),
    ensures
        sc_step(*old(s), *final(s)),
        val_res_matches(
            r,
            final(s).cur(),
            m_parse_table(old(s).gsv(), old(s).cur(), depth as int),
        ),
        r is Ok ==> {
            &&& r->Ok_0 is Table
            &&& pos_bounded(r->Ok_0, sc_total(*old(s)))
            &&& old(s).cur() <= final(s).cur()
            &&& sc_iff(*old(s), *final(s))
        },
        r matches Err(e) ==> crate::error::spec_position(e).byte as int <= sc_total(*old(s)),
    decreases 66 - depth, 0int,
{
    let ghost gsv = old(s).gsv();
    let ghost at0 = old(s).cur();
    proof {
        s.lemma_wf();
        lemma_model_pos_bounded(gsv, at0);
    }
    if depth > MAX_DEPTH {
        let pk = s.peek_token();
        return Err(parse_error("recursion limit exceeded", pk.pos));
    }
    let depth = depth + 1;
    let ghost d2 = depth as int;
    let pos = s.peek_token().pos;
    let pk0 = s.peek_token();
    proof {
        assert(token_view(pk0) == model_token(gsv, at0));
    }
    if matches!(pk0.type_, TokenType::RightBrace) {
        let _rb = match consume(s, TokenType::RightBrace) {
            Ok(t) => t,
            Err(e) => {
                return Err(e);
            },
        };
        let out = Value::Table { key_values: Vec::new(), pos };
        proof {
            assert(crate::value::is_view(out, m_new_table(pos)));
        }
        return Ok(out);
    }
    let mut kv = Value::new_table(pos);
    proof {
        assert(crate::value::is_view(kv, m_new_table(pos)));
    }
    kv = match parse_kv(s, kv, depth, Ghost(m_new_table(pos))) {
        Ok(v) => v,
        Err(e) => {
            return Err(e);
        },
    };
    let ghost mut kvm: ValueM = m_parse_kv(gsv, at0, m_new_table(pos), d2)->Ok_0.0;
    let ghost i1 = s.cur();
    let ghost mrest = m_table_loop(gsv, i1, d2, kvm);
    loop
        invariant
            s.wf(),
            s.gsv() == gsv,
            at0 <= s.cur() <= gsv.len(),
            stream_ok(gsv, s.cur()) <==> stream_ok(gsv, at0),
            m_table_loop(gsv, s.cur(), d2, kvm) == mrest,
            crate::value::is_view(kv, kvm),
            kv is Table,
            pos_bounded(kv, byte_at(gsv, gsv.len() as int)),
        decreases gsv.len() - s.cur(),
    {
        let ghost i = s.cur();
        let pk = s.peek_token();
        let at_end = s.is_at_end();
        proof {
            assert(token_view(pk) == model_token(gsv, i));
        }
        if !(matches!(pk.type_, TokenType::Comma) && !at_end) {
            let _rb = match consume(s, TokenType::RightBrace) {
                Ok(t) => t,
                Err(e) => {
                    return Err(e);
                },
            };
            return Ok(kv);
        }
        let _comma = match consume(s, TokenType::Comma) {
            Ok(t) => t,
            Err(e) => {
                return Err(e);
            },
        };
        let pk2 = s.peek_token();
        proof {
            assert(token_view(pk2) == model_token(gsv, s.cur()));
        }
        if matches!(pk2.type_, TokenType::RightBrace) {
            let _rb = match consume(s, TokenType::RightBrace) {
                Ok(t) => t,
                Err(e) => {
                    return Err(e);
                },
            };
            return Ok(kv);
        }
        let ghost ikv = s.cur();
        kv = match parse_kv(s, kv, depth, Ghost(kvm)) {
            Ok(v) => v,
            Err(e) => {
                return Err(e);
            },
        };
        proof {
            kvm = m_parse_kv(gsv, ikv, kvm, d2)->Ok_0.0;
        }
    }
}

/// Walks the header path `frags[fi..]` from `root`, descending into the
/// last element of any array met, and creating missing tables.  The
/// final node is left as it stands, whatever its shape.
fn prepare_header(
    root: Value,
    frags: &Vec<(String, Pos)>,
    fi: usize,
    Ghost(b): Ghost<int>,
    Ghost(rootm): Ghost<ValueM>,
) -> (r: Result<Value, Error>)
    requires
        fi <= frags@.len(),
        pos_bounded(root, b),
        crate::value::is_view(root, rootm),
        forall|j: int| 0 <= j < frags@.len() ==> (#[trigger] frags@[j]).1.byte as int <= b,
    ensures
        r is Ok ==> {
            &&& (root is Table ==> r->Ok_0 is Table)
            &&& (root is Array ==> r->Ok_0 is Array)
            &&& spec_value_pos(r->Ok_0) == spec_value_pos(root)
            &&& pos_bounded(r->Ok_0, b)
        },
        ({
            let m = m_prepare_header(rootm, frags_view(frags@), fi as int);
            match r {
                Ok(v) => m is Ok && crate::value::is_view(v, m->Ok_0),
                Err(e) => m is Err && crate::error::err_view(e) == m->Err_0,
            }
        }),
        r matches Err(e) ==> crate::error::spec_position(e).byte as int <= b,
    decreases frags@.len() - fi, root, 1int,
{
    let ghost root0 = root;
    if fi == frags.len() {
        return Ok(root);
    }
    proof {
        assert(frags_view(frags@)[fi as int] == (frags@[fi as int].0@, frags@[fi as int].1));
    }
    match root {
        Value::Array { mut values, pos } => {
            let ghost values0 = values@;
            let ghost elemsm = rootm->Array_elems;
            proof {
                assert(crate::value::elems_view(values0, elemsm));
            }
            match values.pop() {
                Some(last) => {
                    let ghost lastm = elemsm.last();
                    proof {
                        assert(crate::value::is_view(last, lastm));
                    }
                    let newlast = match prepare_header_step(
                        last,
                        frags,
                        fi,
                        Ghost(b),
                        Ghost(lastm),
                    ) {
                        Ok(v) => v,
                        Err(e) => {
                            return Err(e);
                        },
                    };
                    let ghost nlm = m_prepare_header_step(lastm, frags_view(frags@), fi as int)->Ok_0;
                    values.push(newlast);
                    proof {
                        assert(values@ =~= values0.update(values0.len() - 1, newlast));
                        assert forall|j: int| 0 <= j < values@.len() implies pos_bounded(
                            #[trigger] values@[j],
                            b,
                        ) by {
                            if j < values@.len() - 1 {
                                assert(values@[j] == values0[j]);
                            }
                        }
                        let em2 = elemsm.update(elemsm.len() - 1, nlm);
                        assert forall|j: int| 0 <= j < values@.len() implies crate::value::is_view(
                            #[trigger] values@[j],
                            em2[j],
                        ) by {
                            if j < values@.len() - 1 {
                                assert(values@[j] == values0[j]);
                                assert(em2[j] == elemsm[j]);
                            }
                        }
                        assert(crate::value::is_view(
                            Value::Array { values: values, pos },
                            ValueM::Array { elems: em2, pos },
                        ));
                    }
                    Ok(Value::Array { values, pos })
                },
                // A header cannot descend into an empty array: there is
                // no last element to continue in.
                None => Err(
                    Error::IncorrectType {
                        got: "array",
                        expected: "array",
                        position: frags[fi].1,
                    },
                ),
            }
        },
        other => prepare_header_step(other, frags, fi, Ghost(b), Ghost(rootm)),
    }
}

/// One header step on a node that must now be a table: makes sure the
/// fragment's child exists, and walks on below it.
fn prepare_header_step(
    node: Value,
    frags: &Vec<(String, Pos)>,
    fi: usize,
    Ghost(b): Ghost<int>,
    Ghost(nodem): Ghost<ValueM>,
) -> (r: Result<Value, Error>)
    requires
        fi < frags@.len(),
        pos_bounded(node, b),
        crate::value::is_view(node, nodem),
        forall|j: int| 0 <= j < frags@.len() ==> (#[trigger] frags@[j]).1.byte as int <= b,
    ensures
        r is Ok ==> {
            &&& r->Ok_0 is Table
            &&& node is Table
            &&& spec_value_pos(r->Ok_0) == spec_value_pos(node)
            &&& pos_bounded(r->Ok_0, b)
        },
        ({
            let m = m_prepare_header_step(nodem, frags_view(frags@), fi as int);
            match r {
                Ok(v) => m is Ok && crate::value::is_view(v, m->Ok_0),
                Err(e) => m is Err && crate::error::err_view(e) == m->Err_0,
            }
        }),
        r matches Err(e) ==> crate::error::spec_position(e).byte as int <= b,
    decreases frags@.len() - fi, node, 0int,
{
    let ghost node0 = node;
    proof {
        assert(frags_view(frags@)[fi as int] == (frags@[fi as int].0@, frags@[fi as int].1));
    }
    match node {
        Value::Table { mut key_values, pos } => {
            let ghost entries0 = key_values@;
            let ghost entriesm = nodem->Table_entries;
            proof {
                assert(crate::value::entries_view(entries0, entriesm));
            }
            let flen = frags.len();
            proof {
                assert(fi < flen);
            }
            let frag = &frags[fi];
            let idx = crate::value::find_key(&key_values, frag.0.as_str());
            proof {
                crate::value::lemma_view_find(entries0, entriesm, frag.0@, 0);
            }
            if idx < key_values.len() {
                let pair = key_values.remove(idx);
                let ghost childm = entriesm[idx as int].1;
                proof {
                    assert(m_lookup(entriesm, frag.0@) == Some(childm));
                    assert(crate::value::is_view(pair.1, childm));
                }
                let child = match prepare_header(
                    pair.1,
                    frags,
                    fi + 1,
                    Ghost(b),
                    Ghost(childm),
                ) {
                    Ok(v) => v,
                    Err(e) => {
                        return Err(e);
                    },
                };
                let ghost ncm = m_prepare_header(childm, frags_view(frags@), fi + 1)->Ok_0;
                key_values.insert(idx, (pair.0, child));
                proof {
                    assert forall|j: int| 0 <= j < key_values@.len() implies pos_bounded(
                        #[trigger] key_values@[j].1,
                        b,
                    ) by {
                        if j != idx {
                            assert(key_values@[j] == entries0[j]);
                        }
                    }
                    crate::value::lemma_find_props(entries0, frag.0@, 0);
                    assert(key_values@ =~= crate::value::spec_insert(entries0, frag.0, child));
                    crate::value::lemma_view_insert(entries0, entriesm, frag.0, child, ncm);
                    assert(crate::value::is_view(
                        Value::Table { key_values: key_values, pos },
                        ValueM::Table { entries: m_insert(entriesm, frag.0@, ncm), pos },
                    ));
                }
                Ok(Value::Table { key_values, pos })
            } else {
                let child = Value::new_table(frag.1);
                proof {
                    assert(m_lookup(entriesm, frag.0@) is None);
                    assert(crate::value::is_view(child, m_new_table(frag.1)));
                }
                let child = match prepare_header(
                    child,
                    frags,
                    fi + 1,
                    Ghost(b),
                    Ghost(m_new_table(frag.1)),
                ) {
                    Ok(v) => v,
                    Err(e) => {
                        return Err(e);
                    },
                };
                let ghost ncm = m_prepare_header(
                    m_new_table(frag.1),
                    frags_view(frags@),
                    fi + 1,
                )->Ok_0;
                key_values.push((frag.0.clone(), child));
                proof {
                    assert forall|j: int| 0 <= j < key_values@.len() implies pos_bounded(
                        #[trigger] key_values@[j].1,
                        b,
                    ) by {
                        if j < entries0.len() {
                            assert(key_values@[j] == entries0[j]);
                        }
                    }
                    crate::value::lemma_find_props(entries0, frag.0@, 0);
                    assert(key_values@ =~= crate::value::spec_insert(entries0, frag.0, child));
                    crate::value::lemma_view_insert(entries0, entriesm, frag.0, child, ncm);
                    assert(crate::value::is_view(
                        Value::Table { key_values: key_values, pos },
                        ValueM::Table { entries: m_insert(entriesm, frag.0@, ncm), pos },
                    ));
                }
                Ok(Value::Table { key_values, pos })
            }
        },
        other => {
            proof {
                assert(spec_type_str(node0) == m_type_str(nodem));
            }
            Err(
                Error::IncorrectType {
                    got: other.type_str(),
                    expected: "table",
                    position: frags[fi].1,
                },
            )
        },
    }
}

/// Walks the header path `frags[fi..]` and binds one `key = value` pair
/// under the node the path reaches.
fn insert_under(
    root: Value,
    frags: &Vec<(String, Pos)>,
    fi: usize,
    kvpath: &Vec<Token>,
    value: Value,
    epos: Pos,
    Ghost(b): Ghost<int>,
    Ghost(rootm): Ghost<ValueM>,
    Ghost(valm): Ghost<ValueM>,
) -> (r: Result<Value, Error>)
    requires
        fi <= frags@.len(),
        kvpath@.len() >= 1,
        pos_bounded(root, b),
        pos_bounded(value, b),
        epos.byte as int <= b,
        crate::value::is_view(root, rootm),
        crate::value::is_view(value, valm),
        forall|j: int| 0 <= j < frags@.len() ==> (#[trigger] frags@[j]).1.byte as int <= b,
        forall|j: int| 0 <= j < kvpath@.len() ==> (#[trigger] kvpath@[j]).pos.byte as int <= b,
    ensures
        r is Ok ==> {
            &&& (root is Table ==> r->Ok_0 is Table)
            &&& (root is Array ==> r->Ok_0 is Array)
            &&& spec_value_pos(r->Ok_0) == spec_value_pos(root)
            &&& pos_bounded(r->Ok_0, b)
        },
        ({
            let m = m_insert_under(rootm, frags_view(frags@), fi as int, path_view(kvpath@), valm, epos);
            match r {
                Ok(v) => m is Ok && crate::value::is_view(v, m->Ok_0),
                Err(e) => m is Err && crate::error::err_view(e) == m->Err_0,
            }
        }),
        r matches Err(e) ==> crate::error::spec_position(e).byte as int <= b,
    decreases frags@.len() - fi, root, 1int,
{
    let ghost root0 = root;
    if fi == frags.len() {
        return insert_path(root, kvpath, 0, value, epos, Ghost(b), Ghost(rootm), Ghost(valm));
    }
    proof {
        assert(frags_view(frags@)[fi as int] == (frags@[fi as int].0@, frags@[fi as int].1));
    }
    match root {
        Value::Array { mut values, pos } => {
            let ghost values0 = values@;
            let ghost elemsm = rootm->Array_elems;
            proof {
                assert(crate::value::elems_view(values0, elemsm));
            }
            match values.pop() {
                Some(last) => {
                    let ghost lastm = elemsm.last();
                    proof {
                        assert(crate::value::is_view(last, lastm));
                    }
                    let newlast = match insert_under_step(
                        last,
                        frags,
                        fi,
                        kvpath,
                        value,
                        epos,
                        Ghost(b),
                        Ghost(lastm),
                        Ghost(valm),
                    ) {
                        Ok(v) => v,
                        Err(e) => {
                            return Err(e);
                        },
                    };
                    let ghost nlm = m_insert_under_step(
                        lastm,
                        frags_view(frags@),
                        fi as int,
                        path_view(kvpath@),
                        valm,
                        epos,
                    )->Ok_0;
                    values.push(newlast);
                    proof {
                        assert(values@ =~= values0.update(values0.len() - 1, newlast));
                        assert forall|j: int| 0 <= j < values@.len() implies pos_bounded(
                            #[trigger] values@[j],
                            b,
                        ) by {
                            if j < values@.len() - 1 {
                                assert(values@[j] == values0[j]);
                            }
                        }
                        let em2 = elemsm.update(elemsm.len() - 1, nlm);
                        assert forall|j: int| 0 <= j < values@.len() implies crate::value::is_view(
                            #[trigger] values@[j],
                            em2[j],
                        ) by {
                            if j < values@.len() - 1 {
                                assert(values@[j] == values0[j]);
                                assert(em2[j] == elemsm[j]);
                            }
                        }
                        assert(crate::value::is_view(
                            Value::Array { values: values, pos },
                            ValueM::Array { elems: em2, pos },
                        ));
                    }
                    Ok(Value::Array { values, pos })
                },
                None => Err(
                    Error::IncorrectType {
                        got: "array",
                        expected: "array",
                        position: frags[fi].1,
                    },
                ),
            }
        },
        other => insert_under_step(
            other,
            frags,
            fi,
            kvpath,
            value,
            epos,
            Ghost(b),
            Ghost(rootm),
            Ghost(valm),
        ),
    }
}

/// One step of [`insert_under`] on a node that must now be a table.
fn insert_under_step(
    node: Value,
    frags: &Vec<(String, Pos)>,
    fi: usize,
    kvpath: &Vec<Token>,
    value: Value,
    epos: Pos,
    Ghost(b): Ghost<int>,
    Ghost(nodem): Ghost<ValueM>,
    Ghost(valm): Ghost<ValueM>,
) -> (r: Result<Value, Error>)
    requires
        fi < frags@.len(),
        kvpath@.len() >= 1,
        pos_bounded(node, b),
        pos_bounded(value, b),
        epos.byte as int <= b,
        crate::value::is_view(node, nodem),
        crate::value::is_view(value, valm),
        forall|j: int| 0 <= j < frags@.len() ==> (#[trigger] frags@[j]).1.byte as int <= b,
        forall|j: int| 0 <= j < kvpath@.len() ==> (#[trigger] kvpath@[j]).pos.byte as int <= b,
    ensures
        r is Ok ==> {
            &&& r->Ok_0 is Table
            &&& node is Table
            &&& spec_value_pos(r->Ok_0) == spec_value_pos(node)
            &&& pos_bounded(r->Ok_0, b)
        },
        ({
            let m = m_insert_under_step(
                nodem,
                frags_view(frags@),
                fi as int,
                path_view(kvpath@),
                valm,
                epos,
            );
            match r {
                Ok(v) => m is Ok && crate::value::is_view(v, m->Ok_0),
                Err(e) => m is Err && crate::error::err_view(e) == m->Err_0,
            }
        }),
        r matches Err(e) ==> crate::error::spec_position(e).byte as int <= b,
    decreases frags@.len() - fi, node, 0int,
{
    let ghost node0 = node;
    proof {
        assert(frags_view(frags@)[fi as int] == (frags@[fi as int].0@, frags@[fi as int].1));
    }
    match node {
        Value::Table { mut key_values, pos } => {
            let ghost entries0 = key_values@;
            let ghost entriesm = nodem->Table_entries;
            proof {
                assert(crate::value::entries_view(entries0, entriesm));
            }
            let flen = frags.len();
            proof {
                assert(fi < flen);
            }
            let frag = &frags[fi];
            let idx = crate::value::find_key(&key_values, frag.0.as_str());
            proof {
                crate::value::lemma_view_find(entries0, entriesm, frag.0@, 0);
            }
            if idx < key_values.len() {
                let pair = key_values.remove(idx);
                let ghost childm = entriesm[idx as int].1;
                proof {
                    assert(m_lookup(entriesm, frag.0@) == Some(childm));
                    assert(crate::value::is_view(pair.1, childm));
                }
                let child = match insert_under(
                    pair.1,
                    frags,
                    fi + 1,
                    kvpath,
                    value,
                    epos,
                    Ghost(b),
                    Ghost(childm),
                    Ghost(valm),
                ) {
                    Ok(v) => v,
                    Err(e) => {
                        return Err(e);
                    },
                };
                let ghost ncm = m_insert_under(
                    childm,
                    frags_view(frags@),
                    fi + 1,
                    path_view(kvpath@),
                    valm,
                    epos,
                )->Ok_0;
                key_values.insert(idx, (pair.0, child));
                proof {
                    assert forall|j: int| 0 <= j < key_values@.len() implies pos_bounded(
                        #[trigger] key_values@[j].1,
                        b,
                    ) by {
                        if j != idx {
                            assert(key_values@[j] == entries0[j]);
                        }
                    }
                    crate::value::lemma_find_props(entries0, frag.0@, 0);
                    assert(key_values@ =~= crate::value::spec_insert(entries0, frag.0, child));
                    crate::value::lemma_view_insert(entries0, entriesm, frag.0, child, ncm);
                    assert(crate::value::is_view(
                        Value::Table { key_values: key_values, pos },
                        ValueM::Table { entries: m_insert(entriesm, frag.0@, ncm), pos },
                    ));
                }
                Ok(Value::Table { key_values, pos })
            } else {
                let child = Value::new_table(frag.1);
                proof {
                    assert(m_lookup(entriesm, frag.0@) is None);
                    assert(crate::value::is_view(child, m_new_table(frag.1)));
                }
                let child = match insert_under(
                    child,
                    frags,
                    fi + 1,
                    kvpath,
                    value,
                    epos,
                    Ghost(b),
                    Ghost(m_new_table(frag.1)),
                    Ghost(valm),
                ) {
                    Ok(v) => v,
                    Err(e) => {
                        return Err(e);
                    },
                };
                let ghost ncm = m_insert_under(
                    m_new_table(frag.1),
                    frags_view(frags@),
                    fi + 1,
                    path_view(kvpath@),
                    valm,
                    epos,
                )->Ok_0;
                key_values.push((frag.0.clone(), child));
                proof {
                    assert forall|j: int| 0 <= j < key_values@.len() implies pos_bounded(
                        #[trigger] key_values@[j].1,
                        b,
                    ) by {
                        if j < entries0.len() {
                            assert(key_values@[j] == entries0[j]);
                        }
                    }
                    crate::value::lemma_find_props(entries0, frag.0@, 0);
                    assert(key_values@ =~= crate::value::spec_insert(entries0, frag.0, child));
                    crate::value::lemma_view_insert(entries0, entriesm, frag.0, child, ncm);
                    assert(crate::value::is_view(
                        Value::Table { key_values: key_values, pos },
                        ValueM::Table { entries: m_insert(entriesm, frag.0@, ncm), pos },
                    ));
                }
                Ok(Value::Table { key_values, pos })
            }
        },
        other => {
            proof {
                assert(spec_type_str(node0) == m_type_str(nodem));
            }
            Err(
                Error::IncorrectType {
                    got: other.type_str(),
                    expected: "table",
                    position: frags[fi].1,
                },
            )
        },
    }
}

/// Walks the `[[…]]` path from `root`, descending into the last element
/// of any array met and creating what is missing: tables for prefixes,
/// an array at the final fragment.  The node the path reaches must be an
/// array; the error for anything else stands at the opening bracket.
fn prepare_aot(
    root: Value,
    frags: &Vec<(String, Pos)>,
    fi: usize,
    lbpos: Pos,
    Ghost(b): Ghost<int>,
    Ghost(rootm): Ghost<ValueM>,
) -> (r: Result<Value, Error>)
    requires
        fi <= frags@.len(),
        pos_bounded(root, b),
        lbpos.byte as int <= b,
        crate::value::is_view(root, rootm),
        forall|j: int| 0 <= j < frags@.len() ==> (#[trigger] frags@[j]).1.byte as int <= b,
    ensures
        r is Ok ==> {
            &&& (root is Table ==> r->Ok_0 is Table)
            &&& (fi == frags@.len() ==> r->Ok_0 is Array && root is Array)
            &&& spec_value_pos(r->Ok_0) == spec_value_pos(root)
            &&& pos_bounded(r->Ok_0, b)
        },
        ({
            let m = m_prepare_aot(rootm, frags_view(frags@), fi as int, lbpos);
            match r {
                Ok(v) => m is Ok && crate::value::is_view(v, m->Ok_0),
                Err(e) => m is Err && crate::error::err_view(e) == m->Err_0,
            }
        }),
        r matches Err(e) ==> crate::error::spec_position(e).byte as int <= b,
    decreases frags@.len() - fi, root, 1int,
{
    let ghost root0 = root;
    if fi == frags.len() {
        if root.is_array() {
            return Ok(root);
        } else {
            proof {
                assert(spec_type_str(root0) == m_type_str(rootm));
            }
            return Err(
                Error::IncorrectType { got: root.type_str(), expected: "array", position: lbpos },
            );
        }
    }
    proof {
        assert(frags_view(frags@)[fi as int] == (frags@[fi as int].0@, frags@[fi as int].1));
    }
    match root {
        Value::Array { mut values, pos } => {
            let ghost values0 = values@;
            let ghost elemsm = rootm->Array_elems;
            proof {
                assert(crate::value::elems_view(values0, elemsm));
            }
            match values.pop() {
                Some(last) => {
                    let ghost lastm = elemsm.last();
                    proof {
                        assert(crate::value::is_view(last, lastm));
                    }
                    let newlast = match prepare_aot_step(
                        last,
                        frags,
                        fi,
                        lbpos,
                        Ghost(b),
                        Ghost(lastm),
                    ) {
                        Ok(v) => v,
                        Err(e) => {
                            return Err(e);
                        },
                    };
                    let ghost nlm = m_prepare_aot_step(
                        lastm,
                        frags_view(frags@),
                        fi as int,
                        lbpos,
                    )->Ok_0;
                    values.push(newlast);
                    proof {
                        assert(values@ =~= values0.update(values0.len() - 1, newlast));
                        assert forall|j: int| 0 <= j < values@.len() implies pos_bounded(
                            #[trigger] values@[j],
                            b,
                        ) by {
                            if j < values@.len() - 1 {
                                assert(values@[j] == values0[j]);
                            }
                        }
                        let em2 = elemsm.update(elemsm.len() - 1, nlm);
                        assert forall|j: int| 0 <= j < values@.len() implies crate::value::is_view(
                            #[trigger] values@[j],
                            em2[j],
                        ) by {
                            if j < values@.len() - 1 {
                                assert(values@[j] == values0[j]);
                                assert(em2[j] == elemsm[j]);
                            }
                        }
                        assert(crate::value::is_view(
                            Value::Array { values: values, pos },
                            ValueM::Array { elems: em2, pos },
                        ));
                    }
                    Ok(Value::Array { values, pos })
                },
                None => Err(
                    Error::IncorrectType {
                        got: "array",
                        expected: "table",
                        position: frags[fi].1,
                    },
                ),
            }
        },
        other => prepare_aot_step(other, frags, fi, lbpos, Ghost(b), Ghost(rootm)),
    }
}

/// One step of [`prepare_aot`] on a node that must now be a table.
fn prepare_aot_step(
    node: Value,
    frags: &Vec<(String, Pos)>,
    fi: usize,
    lbpos: Pos,
    Ghost(b): Ghost<int>,
    Ghost(nodem): Ghost<ValueM>,
) -> (r: Result<Value, Error>)
    requires
        fi < frags@.len(),
        pos_bounded(node, b),
        lbpos.byte as int <= b,
        crate::value::is_view(node, nodem),
        forall|j: int| 0 <= j < frags@.len() ==> (#[trigger] frags@[j]).1.byte as int <= b,
    ensures
        r is Ok ==> {
            &&& r->Ok_0 is Table
            &&& node is Table
            &&& spec_value_pos(r->Ok_0) == spec_value_pos(node)
            &&& pos_bounded(r->Ok_0, b)
        },
        ({
            let m = m_prepare_aot_step(nodem, frags_view(frags@), fi as int, lbpos);
            match r {
                Ok(v) => m is Ok && crate::value::is_view(v, m->Ok_0),
                Err(e) => m is Err && crate::error::err_view(e) == m->Err_0,
            }
        }),
        r matches Err(e) ==> crate::error::spec_position(e).byte as int <= b,
    decreases frags@.len() - fi, node, 0int,
{
    let ghost node0 = node;
    proof {
        assert(frags_view(frags@)[fi as int] == (frags@[fi as int].0@, frags@[fi as int].1));
    }
    match node {
        Value::Table { mut key_values, pos } => {
            let ghost entries0 = key_values@;
            let ghost entriesm = nodem->Table_entries;
            proof {
                assert(crate::value::entries_view(entries0, entriesm));
            }
            let flen = frags.len();
            proof {
                assert(fi < flen);
            }
            let frag = &frags[fi];
            let idx = crate::value::find_key(&key_values, frag.0.as_str());
            proof {
                crate::value::lemma_view_find(entries0, entriesm, frag.0@, 0);
            }
            if idx < key_values.len() {
                let pair = key_values.remove(idx);
                let ghost childm = entriesm[idx as int].1;
                proof {
                    assert(m_lookup(entriesm, frag.0@) == Some(childm));
                    assert(crate::value::is_view(pair.1, childm));
                }
                let child = match prepare_aot(pair.1, frags, fi + 1, lbpos, Ghost(b), Ghost(
                    childm,
                )) {
                    Ok(v) => v,
                    Err(e) => {
                        return Err(e);
                    },
                };
                let ghost ncm = m_prepare_aot(childm, frags_view(frags@), fi + 1, lbpos)->Ok_0;
                key_values.insert(idx, (pair.0, child));
                proof {
                    assert forall|j: int| 0 <= j < key_values@.len() implies pos_bounded(
                        #[trigger] key_values@[j].1,
                        b,
                    ) by {
                        if j != idx {
                            assert(key_values@[j] == entries0[j]);
                        }
                    }
                    crate::value::lemma_find_props(entries0, frag.0@, 0);
                    assert(key_values@ =~= crate::value::spec_insert(entries0, frag.0, child));
                    crate::value::lemma_view_insert(entries0, entriesm, frag.0, child, ncm);
                    assert(crate::value::is_view(
                        Value::Table { key_values: key_values, pos },
                        ValueM::Table { entries: m_insert(entriesm, frag.0@, ncm), pos },
                    ));
                }
                Ok(Value::Table { key_values, pos })
            } else {
                let child = if fi + 1 == flen {
                    Value::new_array(frag.1)
                } else {
                    Value::new_table(frag.1)
                };
                let ghost freshm: ValueM = if fi + 1 == flen as int {
                    ValueM::Array { elems: Seq::<ValueM>::empty(), pos: frag.1 }
                } else {
                    m_new_table(frag.1)
                };
                proof {
                    assert(m_lookup(entriesm, frag.0@) is None);
                    assert(crate::value::is_view(child, freshm));
                }
                let child = match prepare_aot(child, frags, fi + 1, lbpos, Ghost(b), Ghost(
                    freshm,
                )) {
                    Ok(v) => v,
                    Err(e) => {
                        return Err(e);
                    },
                };
                let ghost ncm = m_prepare_aot(freshm, frags_view(frags@), fi + 1, lbpos)->Ok_0;
                key_values.push((frag.0.clone(), child));
                proof {
                    assert forall|j: int| 0 <= j < key_values@.len() implies pos_bounded(
                        #[trigger] key_values@[j].1,
                        b,
                    ) by {
                        if j < entries0.len() {
                            assert(key_values@[j] == entries0[j]);
                        }
                    }
                    crate::value::lemma_find_props(entries0, frag.0@, 0);
                    assert(key_values@ =~= crate::value::spec_insert(entries0, frag.0, child));
                    crate::value::lemma_view_insert(entries0, entriesm, frag.0, child, ncm);
                    assert(crate::value::is_view(
                        Value::Table { key_values: key_values, pos },
                        ValueM::Table { entries: m_insert(entriesm, frag.0@, ncm), pos },
                    ));
                }
                Ok(Value::Table { key_values, pos })
            }
        },
        other => {
            proof {
                assert(spec_type_str(node0) == m_type_str(nodem));
            }
            Err(
                Error::IncorrectType {
                    got: other.type_str(),
                    expected: "table",
                    position: frags[fi].1,
                },
            )
        },
    }
}

/// Walks the `[[…]]` path again and appends `elem` to the array the path
/// reaches.
fn append_at(
    root: Value,
    frags: &Vec<(String, Pos)>,
    fi: usize,
    elem: Value,
    lbpos: Pos,
    Ghost(b): Ghost<int>,
    Ghost(rootm): Ghost<ValueM>,
    Ghost(elemm): Ghost<ValueM>,
) -> (r: Result<Value, Error>)
    requires
        fi <= frags@.len(),
        pos_bounded(root, b),
        pos_bounded(elem, b),
        lbpos.byte as int <= b,
        crate::value::is_view(root, rootm),
        crate::value::is_view(elem, elemm),
        forall|j: int| 0 <= j < frags@.len() ==> (#[trigger] frags@[j]).1.byte as int <= b,
    ensures
        r is Ok ==> {
            &&& (root is Table ==> r->Ok_0 is Table)
            &&& spec_value_pos(r->Ok_0) == spec_value_pos(root)
            &&& pos_bounded(r->Ok_0, b)
        },
        ({
            let m = m_append_at(rootm, frags_view(frags@), fi as int, elemm, lbpos);
            match r {
                Ok(v) => m is Ok && crate::value::is_view(v, m->Ok_0),
                Err(e) => m is Err && crate::error::err_view(e) == m->Err_0,
            }
        }),
        r matches Err(e) ==> crate::error::spec_position(e).byte as int <= b,
    decreases frags@.len() - fi, root, 1int,
{
    let ghost root0 = root;
    if fi == frags.len() {
        match root {
            Value::Array { mut values, pos } => {
                let ghost values0 = values@;
                let ghost elemsm = rootm->Array_elems;
                proof {
                    assert(crate::value::elems_view(values0, elemsm));
                }
                values.push(elem);
                proof {
                    assert forall|j: int| 0 <= j < values@.len() implies pos_bounded(
                        #[trigger] values@[j],
                        b,
                    ) by {
                        if j < values@.len() - 1 {
                            assert(values@[j] == values0[j]);
                        }
                    }
                    let em2 = elemsm.push(elemm);
                    assert forall|j: int| 0 <= j < values@.len() implies crate::value::is_view(
                        #[trigger] values@[j],
                        em2[j],
                    ) by {
                        if j < values@.len() - 1 {
                            assert(values@[j] == values0[j]);
                            assert(em2[j] == elemsm[j]);
                        }
                    }
                    assert(crate::value::is_view(
                        Value::Array { values: values, pos },
                        ValueM::Array { elems: em2, pos },
                    ));
                }
                return Ok(Value::Array { values, pos });
            },
            other => {
                proof {
                    assert(spec_type_str(root0) == m_type_str(rootm));
                }
                return Err(
                    Error::IncorrectType {
                        got: other.type_str(),
                        expected: "array",
                        position: lbpos,
                    },
                );
            },
        }
    }
    proof {
        assert(frags_view(frags@)[fi as int] == (frags@[fi as int].0@, frags@[fi as int].1));
    }
    match root {
        Value::Array { mut values, pos } => {
            let ghost values0 = values@;
            let ghost elemsm = rootm->Array_elems;
            proof {
                assert(crate::value::elems_view(values0, elemsm));
            }
            match values.pop() {
                Some(last) => {
                    let ghost lastm = elemsm.last();
                    proof {
                        assert(crate::value::is_view(last, lastm));
                    }
                    let newlast = match append_at_step(
                        last,
                        frags,
                        fi,
                        elem,
                        lbpos,
                        Ghost(b),
                        Ghost(lastm),
                        Ghost(elemm),
                    ) {
                        Ok(v) => v,
                        Err(e) => {
                            return Err(e);
                        },
                    };
                    let ghost nlm = m_append_at_step(
                        lastm,
                        frags_view(frags@),
                        fi as int,
                        elemm,
                        lbpos,
                    )->Ok_0;
                    values.push(newlast);
                    proof {
                        assert(values@ =~= values0.update(values0.len() - 1, newlast));
                        assert forall|j: int| 0 <= j < values@.len() implies pos_bounded(
                            #[trigger] values@[j],
                            b,
                        ) by {
                            if j < values@.len() - 1 {
                                assert(values@[j] == values0[j]);
                            }
                        }
                        let em2 = elemsm.update(elemsm.len() - 1, nlm);
                        assert forall|j: int| 0 <= j < values@.len() implies crate::value::is_view(
                            #[trigger] values@[j],
                            em2[j],
                        ) by {
                            if j < values@.len() - 1 {
                                assert(values@[j] == values0[j]);
                                assert(em2[j] == elemsm[j]);
                            }
                        }
                        assert(crate::value::is_view(
                            Value::Array { values: values, pos },
                            ValueM::Array { elems: em2, pos },
                        ));
                    }
                    Ok(Value::Array { values, pos })
                },
                None => Err(
                    Error::IncorrectType {
                        got: "array",
                        expected: "table",
                        position: frags[fi].1,
                    },
                ),
            }
        },
        other => append_at_step(other, frags, fi, elem, lbpos, Ghost(b), Ghost(rootm), Ghost(
            elemm,
        )),
    }
}

/// One step of [`append_at`] on a node that must now be a table.
fn append_at_step(
    node: Value,
    frags: &Vec<(String, Pos)>,
    fi: usize,
    elem: Value,
    lbpos: Pos,
    Ghost(b): Ghost<int>,
    Ghost(nodem): Ghost<ValueM>,
    Ghost(elemm): Ghost<ValueM>,
) -> (r: Result<Value, Error>)
    requires
        fi < frags@.len(),
        pos_bounded(node, b),
        pos_bounded(elem, b),
        lbpos.byte as int <= b,
        crate::value::is_view(node, nodem),
        crate::value::is_view(elem, elemm),
        forall|j: int| 0 <= j < frags@.len() ==> (#[trigger] frags@[j]).1.byte as int <= b,
    ensures
        r is Ok ==> {
            &&& r->Ok_0 is Table
            &&& node is Table
            &&& spec_value_pos(r->Ok_0) == spec_value_pos(node)
            &&& pos_bounded(r->Ok_0, b)
        },
        ({
            let m = m_append_at_step(nodem, frags_view(frags@), fi as int, elemm, lbpos);
            match r {
                Ok(v) => m is Ok && crate::value::is_view(v, m->Ok_0),
                Err(e) => m is Err && crate::error::err_view(e) == m->Err_0,
            }
        }),
        r matches Err(e) ==> crate::error::spec_position(e).byte as int <= b,
    decreases frags@.len() - fi, node, 0int,
{
    let ghost node0 = node;
    proof {
        assert(frags_view(frags@)[fi as int] == (frags@[fi as int].0@, frags@[fi as int].1));
    }
    match node {
        Value::Table { mut key_values, pos } => {
            let ghost entries0 = key_values@;
            let ghost entriesm = nodem->Table_entries;
            proof {
                assert(crate::value::entries_view(entries0, entriesm));
            }
            let flen = frags.len();
            proof {
                assert(fi < flen);
            }
            let frag = &frags[fi];
            let idx = crate::value::find_key(&key_values, frag.0.as_str());
            proof {
                crate::value::lemma_view_find(entries0, entriesm, frag.0@, 0);
            }
            if idx < key_values.len() {
                let pair = key_values.remove(idx);
                let ghost childm = entriesm[idx as int].1;
                proof {
                    assert(m_lookup(entriesm, frag.0@) == Some(childm));
                    assert(crate::value::is_view(pair.1, childm));
                }
                let child = match append_at(
                    pair.1,
                    frags,
                    fi + 1,
                    elem,
                    lbpos,
                    Ghost(b),
                    Ghost(childm),
                    Ghost(elemm),
                ) {
                    Ok(v) => v,
                    Err(e) => {
                        return Err(e);
                    },
                };
                let ghost ncm = m_append_at(
                    childm,
                    frags_view(frags@),
                    fi + 1,
                    elemm,
                    lbpos,
                )->Ok_0;
                key_values.insert(idx, (pair.0, child));
                proof {
                    assert forall|j: int| 0 <= j < key_values@.len() implies pos_bounded(
                        #[trigger] key_values@[j].1,
                        b,
                    ) by {
                        if j != idx {
                            assert(key_values@[j] == entries0[j]);
                        }
                    }
                    crate::value::lemma_find_props(entries0, frag.0@, 0);
                    assert(key_values@ =~= crate::value::spec_insert(entries0, frag.0, child));
                    crate::value::lemma_view_insert(entries0, entriesm, frag.0, child, ncm);
                    assert(crate::value::is_view(
                        Value::Table { key_values: key_values, pos },
                        ValueM::Table { entries: m_insert(entriesm, frag.0@, ncm), pos },
                    ));
                }
                Ok(Value::Table { key_values, pos })
            } else {
                proof {
                    assert(m_lookup(entriesm, frag.0@) is None);
                }
                Err(
                    Error::IncorrectType {
                        got: "table",
                        expected: "array",
                        position: frags[fi].1,
                    },
                )
            }
        },
        other => {
            proof {
                assert(spec_type_str(node0) == m_type_str(nodem));
            }
            Err(
                Error::IncorrectType {
                    got: other.type_str(),
                    expected: "table",
                    position: frags[fi].1,
                },
            )
        },
    }
}

/// A header fragment: the token's text with surrounding double quotes
/// removed, and its position.
fn header_frag(tok: &Token) -> (r: (String, Pos))
    ensures
        (r.0@, r.1) == m_strip_frag(token_view(*tok)),
        r.1 == tok.pos,
{
    let n = tok.lexeme.as_str().unicode_len();
    let s = tok.lexeme.as_str();
    if n >= 2 && s.get_char(0) == '"' && s.get_char(n - 1) == '"' {
        (String::from_str(s.substring_char(1, n - 1)), tok.pos)
    } else {
        (tok.lexeme.clone(), tok.pos)
    }
}

/// Reads a `[table.header]` and then every `key = value` pair up to the
/// next header or the end of input, binding each under the header path.
#[verifier::loop_isolation(false)]
#[verifier::rlimit(100)]
fn parse_multiline_table(
    s: &mut Scanner,
    root: Value,
    depth: usize,
    Ghost(rootm): Ghost<ValueM>,
) -> (r: Result<Value, Error>)
    requires
        old(s).wf(),
        pos_bounded(root, sc_total(*old(s))),
        crate::value::is_view(root, rootm),
    ensures
        sc_step(*old(s), *final(s)),
        ({
            let m = m_parse_multiline_table(old(s).gsv(), old(s).cur(), rootm, depth as int);
            match r {
                Ok(v) => m is Ok && crate::value::is_view(v, m->Ok_0.0) && final(s).cur()
                    == m->Ok_0.1,
                Err(e) => m is Err && crate::error::err_view(e) == m->Err_0,
            }
        }),
        r is Ok ==> {
            &&& (root is Table ==> r->Ok_0 is Table)
            &&& spec_value_pos(r->Ok_0) == spec_value_pos(root)
            &&& pos_bounded(r->Ok_0, sc_total(*old(s)))
            &&& old(s).cur() < final(s).cur()
            &&& sc_iff(*old(s), *final(s))
        },
        r matches Err(e) ==> crate::error::spec_position(e).byte as int <= sc_total(*old(s)),
    decreases 66 - depth, 2int,
{
    let ghost gsv = old(s).gsv();
    let ghost at0 = old(s).cur();
    let ghost b = sc_total(*old(s));
    proof {
        s.lemma_wf();
        lemma_model_pos_bounded(gsv, at0);
        reveal(m_parse_multiline_table);
    }
    if depth > MAX_DEPTH {
        let pk = s.peek_token();
        return Err(parse_error("recursion limit exceeded", pk.pos));
    }
    let depth = depth + 1;
    let ghost d2 = depth as int;
    let _lb = match consume(s, TokenType::LeftBracket) {
        Ok(t) => t,
        Err(e) => {
            return Err(e);
        },
    };
    let ghost ipath = s.cur();
    let path = match parse_path(s) {
        Ok(p) => p,
        Err(e) => {
            return Err(e);
        },
    };
    let _rb = match consume(s, TokenType::RightBracket) {
        Ok(t) => t,
        Err(e) => {
            return Err(e);
        },
    };
    let ghost pathm = m_parse_path(gsv, ipath)->Ok_0.0;
    let ghost fragsm = Seq::new(pathm.len(), |j: int| m_strip_frag(pathm[j]));
    let mut frags: Vec<(String, Pos)> = Vec::new();
    let mut i: usize = 0;
    while i < path.len()
        invariant
            0 <= i <= path@.len(),
            frags@.len() == i,
            pathm == path_view(path@),
            fragsm == Seq::new(pathm.len(), |j: int| m_strip_frag(pathm[j])),
            forall|j: int|
                0 <= j < i ==> ((#[trigger] frags@[j]).0@, frags@[j].1) == fragsm[j],
            forall|j: int| 0 <= j < path@.len() ==> (#[trigger] path@[j]).pos.byte as int <= b,
            forall|j: int| 0 <= j < frags@.len() ==> (#[trigger] frags@[j]).1.byte as int <= b,
        decreases path@.len() - i,
    {
        let f = header_frag(&path[i]);
        proof {
            assert(token_view(path@[i as int]) == pathm[i as int]);
        }
        frags.push(f);
        i = i + 1;
    }
    proof {
        assert(frags_view(frags@) =~= fragsm);
    }
    let mut current = match prepare_header(root, &frags, 0, Ghost(b), Ghost(rootm)) {
        Ok(v) => v,
        Err(e) => {
            return Err(e);
        },
    };
    let ghost mut curm: ValueM = m_prepare_header(rootm, fragsm, 0)->Ok_0;
    let ghost i1 = s.cur();
    let ghost mrest = m_mlt_loop(gsv, i1, fragsm, curm, d2);
    loop
        invariant
            s.wf(),
            s.gsv() == gsv,
            at0 < s.cur() <= gsv.len(),
            stream_ok(gsv, s.cur()) <==> stream_ok(gsv, at0),
            m_mlt_loop(gsv, s.cur(), fragsm, curm, d2) == mrest,
            crate::value::is_view(current, curm),
            root is Table ==> current is Table,
            spec_value_pos(current) == spec_value_pos(root),
            pos_bounded(current, b),
            frags_view(frags@) == fragsm,
            forall|j: int| 0 <= j < frags@.len() ==> (#[trigger] frags@[j]).1.byte as int <= b,
        decreases gsv.len() - s.cur(),
    {
        let ghost i = s.cur();
        let pk = s.peek_token();
        let at_end = s.is_at_end();
        proof {
            assert(token_view(pk) == model_token(gsv, i));
        }
        if pk.type_.is_bracket() || at_end {
            return Ok(current);
        }
        let (kvpath, value, epos) = match parse_kv_raw(s, depth) {
            Ok(t) => t,
            Err(e) => {
                return Err(e);
            },
        };
        let ghost kvm = m_parse_kv_raw(gsv, i, d2)->Ok_0;
        current = match insert_under(
            current,
            &frags,
            0,
            &kvpath,
            value,
            epos,
            Ghost(b),
            Ghost(curm),
            Ghost(kvm.1),
        ) {
            Ok(v) => v,
            Err(e) => {
                return Err(e);
            },
        };
        proof {
            curm = m_insert_under(curm, fragsm, 0, kvm.0, kvm.1, kvm.2)->Ok_0;
        }
    }
}

/// Reads a `[[array.of.tables]]` header, gathers every following
/// `key = value` pair into a fresh table, and appends that table to the
/// array the path names.
#[verifier::loop_isolation(false)]
#[verifier::rlimit(100)]
fn parse_multiline_array_element(
    s: &mut Scanner,
    root: Value,
    depth: usize,
    Ghost(rootm): Ghost<ValueM>,
) -> (r: Result<Value, Error>)
    requires
        old(s).wf(),
        pos_bounded(root, sc_total(*old(s))),
        crate::value::is_view(root, rootm),
    ensures
        sc_step(*old(s), *final(s)),
        ({
            let m = m_parse_mae(old(s).gsv(), old(s).cur(), rootm, depth as int);
            match r {
                Ok(v) => m is Ok && crate::value::is_view(v, m->Ok_0.0) && final(s).cur()
                    == m->Ok_0.1,
                Err(e) => m is Err && crate::error::err_view(e) == m->Err_0,
            }
        }),
        r is Ok ==> {
            &&& (root is Table ==> r->Ok_0 is Table)
            &&& spec_value_pos(r->Ok_0) == spec_value_pos(root)
            &&& pos_bounded(r->Ok_0, sc_total(*old(s)))
            &&& old(s).cur() < final(s).cur()
            &&& sc_iff(*old(s), *final(s))
        },
        r matches Err(e) ==> crate::error::spec_position(e).byte as int <= sc_total(*old(s)),
    decreases 66 - depth, 2int,
{
    let ghost gsv = old(s).gsv();
    let ghost at0 = old(s).cur();
    let ghost b = sc_total(*old(s));
    proof {
        s.lemma_wf();
        lemma_model_pos_bounded(gsv, at0);
        reveal(m_parse_mae);
    }
    if depth > MAX_DEPTH {
        let pk = s.peek_token();
        return Err(parse_error("recursion limit exceeded", pk.pos));
    }
    let depth = depth + 1;
    let ghost d2 = depth as int;
    let lb = match consume(s, TokenType::LeftBracket) {
        Ok(t) => t,
        Err(e) => {
            return Err(e);
        },
    };
    let _lb2 = match consume(s, TokenType::LeftBracket) {
        Ok(t) => t,
        Err(e) => {
            return Err(e);
        },
    };
    let ghost ipath = s.cur();
    let path = match parse_path(s) {
        Ok(p) => p,
        Err(e) => {
            return Err(e);
        },
    };
    let _rb = match consume(s, TokenType::RightBracket) {
        Ok(t) => t,
        Err(e) => {
            return Err(e);
        },
    };
    let _rb2 = match consume(s, TokenType::RightBracket) {
        Ok(t) => t,
        Err(e) => {
            return Err(e);
        },
    };
    let ghost pathm = m_parse_path(gsv, ipath)->Ok_0.0;
    let ghost fragsm = Seq::new(pathm.len(), |j: int| (pathm[j].lexeme, pathm[j].pos));
    let mut frags: Vec<(String, Pos)> = Vec::new();
    let mut i: usize = 0;
    while i < path.len()
        invariant
            0 <= i <= path@.len(),
            frags@.len() == i,
            pathm == path_view(path@),
            fragsm == Seq::new(pathm.len(), |j: int| (pathm[j].lexeme, pathm[j].pos)),
            forall|j: int|
                0 <= j < i ==> ((#[trigger] frags@[j]).0@, frags@[j].1) == fragsm[j],
            forall|j: int| 0 <= j < path@.len() ==> (#[trigger] path@[j]).pos.byte as int <= b,
            forall|j: int| 0 <= j < frags@.len() ==> (#[trigger] frags@[j]).1.byte as int <= b,
        decreases path@.len() - i,
    {
        let f = (path[i].lexeme.clone(), path[i].pos);
        proof {
            assert(token_view(path@[i as int]) == pathm[i as int]);
        }
        frags.push(f);
        i = i + 1;
    }
    proof {
        assert(frags_view(frags@) =~= fragsm);
    }
    let root = match prepare_aot(root, &frags, 0, lb.pos, Ghost(b), Ghost(rootm)) {
        Ok(v) => v,
        Err(e) => {
            return Err(e);
        },
    };
    let ghost root2m: ValueM = m_prepare_aot(rootm, fragsm, 0, lb.pos)->Ok_0;
    proof {
        s.lemma_wf();
        lemma_model_pos_bounded(gsv, s.cur());
    }
    let pk0 = s.peek_token();
    proof {
        assert(token_view(pk0) == model_token(gsv, s.cur()));
    }
    let mut table = Value::new_table(pk0.pos);
    let ghost mut tablem: ValueM = m_new_table(pk0.pos);
    proof {
        assert(crate::value::is_view(table, tablem));
    }
    let ghost i1 = s.cur();
    let ghost mrest = m_mae_loop(gsv, i1, tablem, d2);
    loop
        invariant
            s.wf(),
            s.gsv() == gsv,
            at0 < s.cur() <= gsv.len(),
            stream_ok(gsv, s.cur()) <==> stream_ok(gsv, at0),
            m_mae_loop(gsv, s.cur(), tablem, d2) == mrest,
            crate::value::is_view(table, tablem),
            table is Table,
            pos_bounded(table, b),
        decreases gsv.len() - s.cur(),
    {
        let ghost i = s.cur();
        let pk = s.peek_token();
        let at_end = s.is_at_end();
        proof {
            assert(token_view(pk) == model_token(gsv, i));
        }
        if pk.type_.is_bracket() || at_end {
            return append_at(
                root,
                &frags,
                0,
                table,
                lb.pos,
                Ghost(b),
                Ghost(root2m),
                Ghost(tablem),
            );
        }
        table = match parse_kv(s, table, depth, Ghost(tablem)) {
            Ok(v) => v,
            Err(e) => {
                return Err(e);
            },
        };
        proof {
            tablem = m_parse_kv(gsv, i, tablem, d2)->Ok_0.0;
        }
    }
}

/// One unfolding of the document loop, packaged: each statement kind
/// either advances the loop with the statement's result or stops it
/// with the statement's error.
proof fn lemma_parse_loop_step(gs: Seq<Seq<char>>, i: int, top: ValueM)
    requires
        0 <= i <= gs.len(),
    ensures
        model_token(gs, i).type_ is Eof ==> m_parse_loop(gs, i, top) == Ok::<ValueM, ErrM>(top),
        crate::token::spec_may_be_key(model_token(gs, i).type_) ==> m_parse_loop(gs, i, top)
            == (match m_parse_kv(gs, i, top, 0) {
            Err(e) => Err(e),
            Ok((t2, i2)) => {
                if i < i2 <= gs.len() {
                    m_parse_loop(gs, i2, t2)
                } else {
                    Ok(t2)
                }
            },
        }),
        model_token(gs, i).type_ is LeftBracket && model_token(
            gs,
            next_index(gs, i),
        ).type_ is LeftBracket ==> m_parse_loop(gs, i, top) == (match m_parse_mae(gs, i, top, 0) {
            Err(e) => Err(e),
            Ok((t2, i2)) => {
                if i < i2 <= gs.len() {
                    m_parse_loop(gs, i2, t2)
                } else {
                    Ok(t2)
                }
            },
        }),
        model_token(gs, i).type_ is LeftBracket && !(model_token(
            gs,
            next_index(gs, i),
        ).type_ is LeftBracket) ==> m_parse_loop(gs, i, top) == (match m_parse_multiline_table(
            gs,
            i,
            top,
            0,
        ) {
            Err(e) => Err(e),
            Ok((t2, i2)) => {
                if i < i2 <= gs.len() {
                    m_parse_loop(gs, i2, t2)
                } else {
                    Ok(t2)
                }
            },
        }),
        !(model_token(gs, i).type_ is Eof) && !crate::token::spec_may_be_key(
            model_token(gs, i).type_,
        ) && !(model_token(gs, i).type_ is LeftBracket) ==> m_parse_loop(gs, i, top) == Err::<
            ValueM,
            ErrM,
        >(
            ErrM::ParseError {
                reason: "expected key or table header, got '"@ + model_token(gs, i).lexeme + "'"@,
                position: model_token(gs, i).pos,
            },
        ),
{
    reveal(m_parse_loop);
    reveal(m_parse_kv);
    reveal(m_parse_multiline_table);
    reveal(m_parse_mae);
}

/// Reads one top-level statement — a key-value pair, a `[header]`
/// section, or a `[[header]]` element — into the root table, exactly as
/// one step of the document loop states.
#[verifier::rlimit(100)]
fn parse_statement(s: &mut Scanner, top_level: Value, Ghost(topm): Ghost<ValueM>) -> (r: Result<
    (Value, Ghost<ValueM>),
    Error,
>)
    requires
        old(s).wf(),
        pos_bounded(top_level, sc_total(*old(s))),
        crate::value::is_view(top_level, topm),
        top_level is Table,
        !(model_token(old(s).gsv(), old(s).cur()).type_ is Eof),
    ensures
        sc_step(*old(s), *final(s)),
        ({
            let m = m_parse_loop(old(s).gsv(), old(s).cur(), topm);
            match r {
                Ok((v, gm)) => {
                    &&& crate::value::is_view(v, gm@)
                    &&& v is Table
                    &&& pos_bounded(v, sc_total(*old(s)))
                    &&& old(s).cur() < final(s).cur()
                    &&& sc_iff(*old(s), *final(s))
                    &&& m == m_parse_loop(old(s).gsv(), final(s).cur(), gm@)
                },
                Err(e) => m == Err::<ValueM, ErrM>(crate::error::err_view(e)) && crate::error::spec_position(
                    e,
                ).byte as int <= sc_total(*old(s)),
            }
        }),
{
    let ghost gsv = old(s).gsv();
    let ghost at = old(s).cur();
    proof {
        s.lemma_wf();
        lemma_next_index(gsv, at);
        lemma_stream_ok_step(gsv, at);
        lemma_parse_loop_step(gsv, at, topm);
        lemma_model_pos_bounded(gsv, at);
    }
    let peeked = s.peek_token();
    proof {
        assert(token_view(peeked) == model_token(gsv, at));
    }
    if peeked.type_.may_be_key() {
        let v = match parse_kv(s, top_level, 0, Ghost(topm)) {
            Ok(v) => v,
            Err(e) => {
                return Err(e);
            },
        };
        let ghost gm = m_parse_kv(gsv, at, topm, 0)->Ok_0.0;
        Ok((v, Ghost(gm)))
    } else if peeked.type_.is_bracket() {
        let second = s.peek_nth(1);
        proof {
            assert(crate::scan::nth_index(gsv, at, 0nat) == at);
            assert(crate::scan::nth_index(gsv, at, 1nat) == next_index(
                gsv,
                crate::scan::nth_index(gsv, at, 0nat),
            ));
            assert(token_view(second) == model_token(gsv, next_index(gsv, at)));
        }
        if second.type_.is_bracket() {
            parse_mae_statement(s, top_level, Ghost(topm))
        } else {
            parse_mlt_statement(s, top_level, Ghost(topm))
        }
    } else {
        Err(parse_error_at("expected key or table header, got '", &peeked))
    }
}

/// Reads one `[[header]]` statement into the root table.
#[verifier::rlimit(100)]
fn parse_mae_statement(s: &mut Scanner, top_level: Value, Ghost(topm): Ghost<ValueM>) -> (r:
    Result<(Value, Ghost<ValueM>), Error>)
    requires
        old(s).wf(),
        pos_bounded(top_level, sc_total(*old(s))),
        crate::value::is_view(top_level, topm),
        top_level is Table,
        model_token(old(s).gsv(), old(s).cur()).type_ is LeftBracket,
        model_token(old(s).gsv(), next_index(old(s).gsv(), old(s).cur())).type_ is LeftBracket,
    ensures
        sc_step(*old(s), *final(s)),
        ({
            let m = m_parse_loop(old(s).gsv(), old(s).cur(), topm);
            match r {
                Ok((v, gm)) => {
                    &&& crate::value::is_view(v, gm@)
                    &&& v is Table
                    &&& pos_bounded(v, sc_total(*old(s)))
                    &&& old(s).cur() < final(s).cur()
                    &&& sc_iff(*old(s), *final(s))
                    &&& m == m_parse_loop(old(s).gsv(), final(s).cur(), gm@)
                },
                Err(e) => m == Err::<ValueM, ErrM>(crate::error::err_view(e))
                    && crate::error::spec_position(e).byte as int <= sc_total(*old(s)),
            }
        }),
{
    let ghost gsv = old(s).gsv();
    let ghost at = old(s).cur();
    proof {
        s.lemma_wf();
        lemma_next_index(gsv, at);
        lemma_stream_ok_step(gsv, at);
        lemma_parse_loop_step(gsv, at, topm);
    }
    let v = match parse_multiline_array_element(s, top_level, 0, Ghost(topm)) {
        Ok(v) => v,
        Err(e) => {
            return Err(e);
        },
    };
    let ghost gm = m_parse_mae(gsv, at, topm, 0)->Ok_0.0;
    Ok((v, Ghost(gm)))
}

/// Reads one `[header]` statement into the root table.
#[verifier::rlimit(100)]
fn parse_mlt_statement(s: &mut Scanner, top_level: Value, Ghost(topm): Ghost<ValueM>) -> (r:
    Result<(Value, Ghost<ValueM>), Error>)
    requires
        old(s).wf(),
        pos_bounded(top_level, sc_total(*old(s))),
        crate::value::is_view(top_level, topm),
        top_level is Table,
        model_token(old(s).gsv(), old(s).cur()).type_ is LeftBracket,
        !(model_token(old(s).gsv(), next_index(old(s).gsv(), old(s).cur())).type_ is LeftBracket),
    ensures
        sc_step(*old(s), *final(s)),
        ({
            let m = m_parse_loop(old(s).gsv(), old(s).cur(), topm);
            match r {
                Ok((v, gm)) => {
                    &&& crate::value::is_view(v, gm@)
                    &&& v is Table
                    &&& pos_bounded(v, sc_total(*old(s)))
                    &&& old(s).cur() < final(s).cur()
                    &&& sc_iff(*old(s), *final(s))
                    &&& m == m_parse_loop(old(s).gsv(), final(s).cur(), gm@)
                },
                Err(e) => m == Err::<ValueM, ErrM>(crate::error::err_view(e))
                    && crate::error::spec_position(e).byte as int <= sc_total(*old(s)),
            }
        }),
{
    let ghost gsv = old(s).gsv();
    let ghost at = old(s).cur();
    proof {
        s.lemma_wf();
        lemma_next_index(gsv, at);
        lemma_stream_ok_step(gsv, at);
        lemma_parse_loop_step(gsv, at, topm);
    }
    let v = match parse_multiline_table(s, top_level, 0, Ghost(topm)) {
        Ok(v) => v,
        Err(e) => {
            return Err(e);
        },
    };
    let ghost gm = m_parse_multiline_table(gsv, at, topm, 0)->Ok_0.0;
    Ok((v, Ghost(gm)))
}

/// Parses a whole document into its root table.
///
/// The result is fixed by the parser model: `parse` succeeds exactly
/// when `m_parse` does on the document's cluster sequence, the returned
/// tree realizes the model's tree, and a failure is the model's error
/// with its text and position.  On success the root is a table, every
/// position in the tree lies within the document's bytes, and the token
/// stream is clean: `scan` succeeds on exactly those streams, so
/// whenever `parse` succeeds, so does `scan`.  The length bound keeps
/// byte offsets within `usize`.
#[verifier::loop_isolation(false)]
#[verifier::rlimit(100)]
pub fn parse(doc: &str) -> (r: Result<Value, Error>)
    requires
        doc@.len() < usize::MAX / 16,
    ensures
        r is Ok <==> m_parse(crate::unicode::graphemes_of(doc@)) is Ok,
        r matches Ok(root) ==> crate::value::is_view(
            root,
            m_parse(crate::unicode::graphemes_of(doc@))->Ok_0,
        ),
        r matches Err(e) ==> crate::error::err_view(e) == m_parse(
            crate::unicode::graphemes_of(doc@),
        )->Err_0,
        r is Ok ==> r->Ok_0 is Table,
        r is Ok ==> stream_ok(crate::unicode::graphemes_of(doc@), 0),
        r is Ok ==> pos_bounded(r->Ok_0, vstd::utf8::encode_utf8(doc@).len() as int),
        r matches Err(e) ==> crate::error::spec_position(e).byte as int <= vstd::utf8::encode_utf8(
            doc@,
        ).len() as int,
{
    let ghost gsv = crate::unicode::graphemes_of(doc@);
    let mut scanner = Scanner::new(doc);
    let ghost b = sc_total(scanner);
    let first = scanner.peek_token();
    proof {
        scanner.lemma_wf();
        lemma_model_pos_bounded(gsv, 0);
        assert(token_view(first) == model_token(gsv, 0));
    }
    let mut top_level = Value::new_table(first.pos);
    let ghost mut topm: ValueM = m_new_table(first.pos);
    proof {
        assert(crate::value::is_view(top_level, topm));
    }
    loop
        invariant
            gsv == crate::unicode::graphemes_of(doc@),
            b == byte_at(gsv, gsv.len() as int),
            b == vstd::utf8::encode_utf8(doc@).len(),
            scanner.wf(),
            scanner.gsv() == gsv,
            0 <= scanner.cur() <= gsv.len(),
            stream_ok(gsv, scanner.cur()) <==> stream_ok(gsv, 0),
            m_parse_loop(gsv, scanner.cur(), topm) == m_parse(gsv),
            crate::value::is_view(top_level, topm),
            top_level is Table,
            pos_bounded(top_level, b),
        decreases gsv.len() - scanner.cur(),
    {
        let ghost at = scanner.cur();
        proof {
            scanner.lemma_wf();
            lemma_next_index(gsv, at);
            lemma_stream_ok_step(gsv, at);
            lemma_parse_loop_step(gsv, at, topm);
        }
        let peeked = scanner.peek_token();
        proof {
            assert(token_view(peeked) == model_token(gsv, at));
        }
        if peeked.type_.is_eof() {
            return Ok(top_level);
        }
        let (v, gm) = match parse_statement(&mut scanner, top_level, Ghost(topm)) {
            Ok(t) => t,
            Err(e) => {
                return Err(e);
            },
        };
        top_level = v;
        proof {
            topm = gm@;
        }
    }
}

// ---------------------------------------------------------------------
// The parser model: pure functions from the cluster sequence and a token
// index to the mathematical tree built there and the index after it.
// Every executable parser function below is proved to return exactly its
// model's result.  Branches guarded by index bounds that the scanner
// model makes unreachable return a placeholder error.
// ---------------------------------------------------------------------

use crate::error::ErrM;
use crate::value::{m_insert, m_lookup, ValueM};

/// The image of a concrete token.
pub open spec fn token_view(t: Token) -> crate::token::TokenM {
    crate::token::TokenM { type_: t.type_, lexeme: t.lexeme@, pos: t.pos }
}

/// The image of a fragment list.
pub open spec fn frags_view(f: Seq<(String, Pos)>) -> Seq<(Seq<char>, Pos)> {
    Seq::new(f.len(), |j: int| (f[j].0@, f[j].1))
}

/// The image of a token list.
pub open spec fn path_view(p: Seq<Token>) -> Seq<crate::token::TokenM> {
    Seq::new(p.len(), |j: int| token_view(p[j]))
}

/// The placeholder error of unreachable model branches.
pub open spec fn m_dead_end() -> ErrM {
    ErrM::ParseError { reason: Seq::<char>::empty(), position: Pos { line: 0, col: 0, byte: 0 } }
}

/// Whether a token result realizes a model token result: same success,
/// same token image and scanner position, or the same error image.
pub open spec fn tok_res_matches(
    r: Result<Token, Error>,
    cur2: int,
    m: Result<(crate::token::TokenM, int), ErrM>,
) -> bool {
    match r {
        Ok(t) => m is Ok && token_view(t) == m->Ok_0.0 && cur2 == m->Ok_0.1,
        Err(e) => m is Err && crate::error::err_view(e) == m->Err_0,
    }
}

/// Whether a value result realizes a model value result.
pub open spec fn val_res_matches(
    r: Result<Value, Error>,
    cur2: int,
    m: Result<(ValueM, int), ErrM>,
) -> bool {
    match r {
        Ok(v) => m is Ok && crate::value::is_view(v, m->Ok_0.0) && cur2 == m->Ok_0.1,
        Err(e) => m is Err && crate::error::err_view(e) == m->Err_0,
    }
}

/// An empty table image at `pos`.
pub open spec fn m_new_table(pos: Pos) -> ValueM {
    ValueM::Table { entries: Seq::<(Seq<char>, ValueM)>::empty(), pos }
}

/// The shape name of a tree image.
pub open spec fn m_type_str(m: ValueM) -> Seq<char> {
    match m {
        ValueM::Array { .. } => "array"@,
        ValueM::Table { .. } => "table"@,
        ValueM::String { .. } => "string"@,
        ValueM::Integer { .. } => "integer"@,
        ValueM::Float { .. } => "float"@,
        ValueM::Boolean { .. } => "boolean"@,
        ValueM::Datetime { .. } => "datetime"@,
    }
}

/// Whether a tree image is a date and nothing else.
pub open spec fn m_is_just_date(m: ValueM) -> bool {
    m matches ValueM::Datetime { datetime, .. } && datetime.date is Some && datetime.time is None
}

/// Whether the scanner is out of clusters once the token at `i` is read.
pub open spec fn m_at_end(gs: Seq<Seq<char>>, i: int) -> bool {
    next_index(gs, i) == gs.len()
}

/// Reading a token of the structural kind `want` at `i`.
pub open spec fn m_consume(gs: Seq<Seq<char>>, i: int, want: TokenType) -> Result<
    (crate::token::TokenM, int),
    ErrM,
> {
    let t = model_token(gs, i);
    if spec_same_kind(t.type_, want) {
        Ok((t, next_index(gs, i)))
    } else {
        match t.type_ {
            TokenType::Error(error, _) => Err(ErrM::Scan { error, position: t.pos }),
            _ => Err(
                ErrM::ParseError {
                    reason: "expected structural token, got '"@ + t.lexeme + "'"@,
                    position: t.pos,
                },
            ),
        }
    }
}

/// Reading a key fragment at `i`.
pub open spec fn m_consume_key(gs: Seq<Seq<char>>, i: int) -> Result<
    (crate::token::TokenM, int),
    ErrM,
> {
    let t = model_token(gs, i);
    match t.type_ {
        TokenType::Error(error, _) => Err(ErrM::Scan { error, position: t.pos }),
        _ => {
            if crate::token::spec_may_be_key(t.type_) {
                Ok((t, next_index(gs, i)))
            } else {
                Err(
                    ErrM::ParseError {
                        reason: "expected non-symbol for key name, got '"@ + t.lexeme + "'"@,
                        position: t.pos,
                    },
                )
            }
        },
    }
}

/// The `.`-separated continuation of a key path.
pub open spec fn m_path_loop(gs: Seq<Seq<char>>, i: int, acc: Seq<crate::token::TokenM>) -> Result<
    (Seq<crate::token::TokenM>, int),
    ErrM,
>
    decreases gs.len() - i,
{
    if !(0 <= i <= gs.len()) {
        Err(m_dead_end())
    } else {
        let pk = model_token(gs, i);
        if !((crate::token::spec_may_be_key(pk.type_) || pk.type_ is Dot) && !m_at_end(gs, i)) {
            Ok((acc, i))
        } else {
            match m_consume(gs, i, TokenType::Dot) {
                Err(e) => Err(e),
                Ok((_, i2)) => match m_consume_key(gs, i2) {
                    Err(e) => Err(e),
                    Ok((key, i3)) => {
                        if i < i3 <= gs.len() {
                            m_path_loop(gs, i3, acc.push(key))
                        } else {
                            Ok((acc.push(key), i3))
                        }
                    },
                },
            }
        }
    }
}

/// Reading a dotted key path at `i`.
pub open spec fn m_parse_path(gs: Seq<Seq<char>>, i: int) -> Result<
    (Seq<crate::token::TokenM>, int),
    ErrM,
> {
    match m_consume_key(gs, i) {
        Err(e) => Err(e),
        Ok((first, i2)) => m_path_loop(gs, i2, seq![first]),
    }
}

/// Binding `value` along `path[k..]` in a tree image.
pub open spec fn m_insert_path(
    current: ValueM,
    path: Seq<crate::token::TokenM>,
    k: int,
    value: ValueM,
    epos: Pos,
) -> Result<ValueM, ErrM>
    decreases path.len() - k,
{
    match current {
        ValueM::Table { entries, pos } => {
            if !(0 <= k < path.len()) {
                Err(m_dead_end())
            } else if k + 1 == path.len() {
                Ok(ValueM::Table { entries: m_insert(entries, path[k].lexeme, value), pos })
            } else {
                let key = path[k].lexeme;
                let sub = match m_lookup(entries, key) {
                    Some(child) => m_insert_path(child, path, k + 1, value, epos),
                    None => m_insert_path(m_new_table(path[k].pos), path, k + 1, value, epos),
                };
                match sub {
                    Ok(nc) => Ok(ValueM::Table { entries: m_insert(entries, key, nc), pos }),
                    Err(e) => Err(e),
                }
            }
        },
        other => Err(
            ErrM::IncorrectType { got: m_type_str(other), expected: "table"@, position: epos },
        ),
    }
}

/// Reading one value at `i`.
pub open spec fn m_parse_value(gs: Seq<Seq<char>>, i: int, depth: int) -> Result<
    (ValueM, int),
    ErrM,
>
    decreases 66 - depth, gs.len() - i, 0int,
{
    if !(0 <= i <= gs.len()) {
        Err(m_dead_end())
    } else if depth > MAX_DEPTH {
        Err(
            ErrM::ParseError {
                reason: "recursion limit exceeded"@,
                position: model_token(gs, i).pos,
            },
        )
    } else {
        let d2 = depth + 1;
        let t = model_token(gs, i);
        let i2 = next_index(gs, i);
        match t.type_ {
            TokenType::LeftBracket => {
                if i < i2 <= gs.len() {
                    m_parse_array(gs, i2, d2)
                } else {
                    Err(m_dead_end())
                }
            },
            TokenType::LeftBrace => {
                if i < i2 <= gs.len() {
                    m_parse_table(gs, i2, d2)
                } else {
                    Err(m_dead_end())
                }
            },
            TokenType::String(qt) => Ok(
                (
                    ValueM::String {
                        quote_type: qt,
                        text: spec_strip_quotes(t.lexeme, spec_quote_n(qt)),
                        pos: t.pos,
                    },
                    i2,
                ),
            ),
            TokenType::Plus => {
                let pk = model_token(gs, i2);
                let again = match pk.type_ {
                    TokenType::Integer(_) => true,
                    TokenType::Float => true,
                    TokenType::Ident => pk.lexeme == "inf"@ || pk.lexeme == "nan"@,
                    _ => false,
                };
                if again {
                    if i < i2 <= gs.len() {
                        m_parse_value(gs, i2, d2)
                    } else {
                        Err(m_dead_end())
                    }
                } else {
                    Err(
                        ErrM::ParseError {
                            reason: "expecting integer, float, nan, or inf after +"@,
                            position: t.pos,
                        },
                    )
                }
            },
            TokenType::Minus => {
                let pk = model_token(gs, i2);
                let i3 = next_index(gs, i2);
                match pk.type_ {
                    TokenType::Integer(n) => Ok(
                        (
                            ValueM::Integer {
                                value: vstd::wrapping::i64_specs::wrapping_sub(0, n),
                                pos: pk.pos,
                            },
                            i3,
                        ),
                    ),
                    TokenType::Float => Ok(
                        (
                            ValueM::Float {
                                repr: seq!['-'] + spec_strip_us(pk.lexeme),
                                pos: pk.pos,
                            },
                            i3,
                        ),
                    ),
                    TokenType::Ident => {
                        if pk.lexeme == "inf"@ {
                            Ok((ValueM::Float { repr: "-inf"@, pos: pk.pos }, i3))
                        } else if pk.lexeme == "nan"@ {
                            Ok((ValueM::Float { repr: "-nan"@, pos: pk.pos }, i3))
                        } else {
                            Err(
                                ErrM::ParseError {
                                    reason: "expecting integer, float, nan, or inf after -"@,
                                    position: t.pos,
                                },
                            )
                        }
                    },
                    _ => Err(
                        ErrM::ParseError {
                            reason: "expecting integer, float, nan, or inf after -"@,
                            position: t.pos,
                        },
                    ),
                }
            },
            TokenType::Integer(value) => Ok((ValueM::Integer { value, pos: t.pos }, i2)),
            TokenType::Float => Ok(
                (ValueM::Float { repr: spec_strip_us(t.lexeme), pos: t.pos }, i2),
            ),
            TokenType::Boolean(value) => Ok((ValueM::Boolean { value, pos: t.pos }, i2)),
            TokenType::Time { time, offset } => Ok(
                (
                    ValueM::Datetime {
                        datetime: Datetime { date: None, time: Some(time), offset },
                        pos: t.pos,
                    },
                    i2,
                ),
            ),
            TokenType::Date(date) => Ok(
                (
                    ValueM::Datetime {
                        datetime: Datetime { date: Some(date), time: None, offset: None },
                        pos: t.pos,
                    },
                    i2,
                ),
            ),
            TokenType::Datetime(datetime) => Ok((ValueM::Datetime { datetime, pos: t.pos }, i2)),
            TokenType::Ident => {
                if t.lexeme == "inf"@ {
                    Ok((ValueM::Float { repr: "inf"@, pos: t.pos }, i2))
                } else if t.lexeme == "nan"@ {
                    Ok((ValueM::Float { repr: "nan"@, pos: t.pos }, i2))
                } else if t.lexeme == "true"@ {
                    Ok((ValueM::Boolean { value: true, pos: t.pos }, i2))
                } else if t.lexeme == "false"@ {
                    Ok((ValueM::Boolean { value: false, pos: t.pos }, i2))
                } else {
                    Err(
                        ErrM::ParseError {
                            reason: "unsupported value token, got '"@ + t.lexeme + "'"@,
                            position: t.pos,
                        },
                    )
                }
            },
            TokenType::Error(error, _) => Err(ErrM::Scan { error, position: t.pos }),
            _ => Err(
                ErrM::ParseError {
                    reason: "unsupported value token, got '"@ + t.lexeme + "'"@,
                    position: t.pos,
                },
            ),
        }
    }
}

/// The comma-separated continuation of an array whose first element has
/// been read.
pub open spec fn m_array_loop(gs: Seq<Seq<char>>, i: int, depth: int, acc: Seq<ValueM>) -> Result<
    (Seq<ValueM>, int),
    ErrM,
>
    decreases 66 - depth, gs.len() - i, 3int,
{
    if !(0 <= i <= gs.len()) {
        Err(m_dead_end())
    } else {
        let pk = model_token(gs, i);
        if !(pk.type_ is Comma && !m_at_end(gs, i)) {
            Ok((acc, i))
        } else {
            match m_consume(gs, i, TokenType::Comma) {
                Err(e) => Err(e),
                Ok((_, i2)) => {
                    let pk2 = model_token(gs, i2);
                    if pk2.type_ is RightBracket {
                        Ok((acc, i2))
                    } else if i <= i2 <= gs.len() {
                        match m_parse_value(gs, i2, depth) {
                            Err(e) => Err(e),
                            Ok((v, i3)) => {
                                if i < i3 <= gs.len() {
                                    m_array_loop(gs, i3, depth, acc.push(v))
                                } else {
                                    Ok((acc.push(v), i3))
                                }
                            },
                        }
                    } else {
                        Err(m_dead_end())
                    }
                },
            }
        }
    }
}

/// Reading the elements of an array whose `[` has just been consumed.
pub open spec fn m_parse_array(gs: Seq<Seq<char>>, i: int, depth: int) -> Result<
    (ValueM, int),
    ErrM,
>
    decreases 66 - depth, gs.len() - i, 1int,
{
    if !(0 <= i <= gs.len()) {
        Err(m_dead_end())
    } else if depth > MAX_DEPTH {
        Err(
            ErrM::ParseError {
                reason: "recursion limit exceeded"@,
                position: model_token(gs, i).pos,
            },
        )
    } else {
        let d2 = depth + 1;
        let pos = model_token(gs, i).pos;
        if model_token(gs, i).type_ is RightBracket {
            match m_consume(gs, i, TokenType::RightBracket) {
                Err(e) => Err(e),
                Ok((_, i2)) => Ok((ValueM::Array { elems: Seq::<ValueM>::empty(), pos }, i2)),
            }
        } else {
            match m_parse_value(gs, i, d2) {
                Err(e) => Err(e),
                Ok((v0, i2)) => {
                    if i <= i2 <= gs.len() {
                        match m_array_loop(gs, i2, d2, seq![v0]) {
                            Err(e) => Err(e),
                            Ok((vals, i3)) => match m_consume(gs, i3, TokenType::RightBracket) {
                                Err(e) => Err(e),
                                Ok((_, i4)) => Ok((ValueM::Array { elems: vals, pos }, i4)),
                            },
                        }
                    } else {
                        Err(m_dead_end())
                    }
                },
            }
        }
    }
}

/// Reading one `key = value` pair: path, `=`, value, and the date-time
/// stitch when a bare time token follows a date-only value.
pub open spec fn m_parse_kv_raw(gs: Seq<Seq<char>>, i: int, depth: int) -> Result<
    (Seq<crate::token::TokenM>, ValueM, Pos, int),
    ErrM,
>
    decreases 66 - depth, gs.len() - i, 1int,
{
    if !(0 <= i <= gs.len()) {
        Err(m_dead_end())
    } else if depth > MAX_DEPTH {
        Err(
            ErrM::ParseError {
                reason: "recursion limit exceeded"@,
                position: model_token(gs, i).pos,
            },
        )
    } else {
        let d2 = depth + 1;
        match m_parse_path(gs, i) {
            Err(e) => Err(e),
            Ok((path, i2)) => match m_consume(gs, i2, TokenType::Equals) {
                Err(e) => Err(e),
                Ok((eq, i3)) => {
                    if i <= i3 <= gs.len() {
                        match m_parse_value(gs, i3, d2) {
                            Err(e) => Err(e),
                            Ok((val, i4)) => {
                                let pk = model_token(gs, i4);
                                if pk.type_ is Time && m_is_just_date(val) {
                                    let i5 = next_index(gs, i4);
                                    match (pk.type_, val) {
                                        (
                                            TokenType::Time { time, offset },
                                            ValueM::Datetime { datetime, pos },
                                        ) => Ok(
                                            (
                                                path,
                                                ValueM::Datetime {
                                                    datetime: Datetime {
                                                        date: datetime.date,
                                                        time: Some(time),
                                                        offset,
                                                    },
                                                    pos,
                                                },
                                                eq.pos,
                                                i5,
                                            ),
                                        ),
                                        _ => Ok((path, val, eq.pos, i5)),
                                    }
                                } else {
                                    Ok((path, val, eq.pos, i4))
                                }
                            },
                        }
                    } else {
                        Err(m_dead_end())
                    }
                },
            },
        }
    }
}

/// Reading one `key = value` pair and binding it in `cur`.  Opaque: the
/// reader's own proof unfolds it once.
#[verifier::opaque]
pub open spec fn m_parse_kv(gs: Seq<Seq<char>>, i: int, cur: ValueM, depth: int) -> Result<
    (ValueM, int),
    ErrM,
>
    decreases 66 - depth, gs.len() - i, 2int,
{
    if !(0 <= i <= gs.len()) {
        Err(m_dead_end())
    } else {
        match m_parse_kv_raw(gs, i, depth) {
            Err(e) => Err(e),
            Ok((path, val, epos, i2)) => match m_insert_path(cur, path, 0, val, epos) {
                Err(e) => Err(e),
                Ok(t) => Ok((t, i2)),
            },
        }
    }
}

/// The comma-separated continuation of an inline table whose first pair
/// has been read.
pub open spec fn m_table_loop(gs: Seq<Seq<char>>, i: int, depth: int, kv: ValueM) -> Result<
    (ValueM, int),
    ErrM,
>
    decreases 66 - depth, gs.len() - i, 3int,
{
    if !(0 <= i <= gs.len()) {
        Err(m_dead_end())
    } else {
        let pk = model_token(gs, i);
        if !(pk.type_ is Comma && !m_at_end(gs, i)) {
            Ok((kv, i))
        } else {
            match m_consume(gs, i, TokenType::Comma) {
                Err(e) => Err(e),
                Ok((_, i2)) => {
                    let pk2 = model_token(gs, i2);
                    if pk2.type_ is RightBrace {
                        Ok((kv, i2))
                    } else if i <= i2 <= gs.len() {
                        match m_parse_kv(gs, i2, kv, depth) {
                            Err(e) => Err(e),
                            Ok((kv2, i3)) => {
                                if i < i3 <= gs.len() {
                                    m_table_loop(gs, i3, depth, kv2)
                                } else {
                                    Ok((kv2, i3))
                                }
                            },
                        }
                    } else {
                        Err(m_dead_end())
                    }
                },
            }
        }
    }
}

/// Reading the pairs of an inline table whose `{` has just been
/// consumed.
pub open spec fn m_parse_table(gs: Seq<Seq<char>>, i: int, depth: int) -> Result<
    (ValueM, int),
    ErrM,
>
    decreases 66 - depth, gs.len() - i, 1int,
{
    if !(0 <= i <= gs.len()) {
        Err(m_dead_end())
    } else if depth > MAX_DEPTH {
        Err(
            ErrM::ParseError {
                reason: "recursion limit exceeded"@,
                position: model_token(gs, i).pos,
            },
        )
    } else {
        let d2 = depth + 1;
        let pos = model_token(gs, i).pos;
        if model_token(gs, i).type_ is RightBrace {
            match m_consume(gs, i, TokenType::RightBrace) {
                Err(e) => Err(e),
                Ok((_, i2)) => Ok((m_new_table(pos), i2)),
            }
        } else {
            match m_parse_kv(gs, i, m_new_table(pos), d2) {
                Err(e) => Err(e),
                Ok((kv, i2)) => {
                    if i <= i2 <= gs.len() {
                        match m_table_loop(gs, i2, d2, kv) {
                            Err(e) => Err(e),
                            Ok((kv2, i3)) => match m_consume(gs, i3, TokenType::RightBrace) {
                                Err(e) => Err(e),
                                Ok((_, i4)) => Ok((kv2, i4)),
                            },
                        }
                    } else {
                        Err(m_dead_end())
                    }
                },
            }
        }
    }
}

/// A header fragment image: surrounding double quotes stripped.
pub open spec fn m_strip_frag(t: crate::token::TokenM) -> (Seq<char>, Pos) {
    if t.lexeme.len() >= 2 && t.lexeme[0] == '"' && t.lexeme[t.lexeme.len() - 1] == '"' {
        (t.lexeme.subrange(1, t.lexeme.len() - 1), t.pos)
    } else {
        (t.lexeme, t.pos)
    }
}

/// Walking a header path, creating missing tables; the final node is
/// left as it stands.
pub open spec fn m_prepare_header(root: ValueM, frags: Seq<(Seq<char>, Pos)>, fi: int) -> Result<
    ValueM,
    ErrM,
>
    decreases frags.len() - fi, root, 1int,
{
    if !(0 <= fi <= frags.len()) {
        Err(m_dead_end())
    } else if fi == frags.len() {
        Ok(root)
    } else {
        match root {
            ValueM::Array { elems, pos } => {
                if elems.len() == 0 {
                    Err(
                        ErrM::IncorrectType {
                            got: "array"@,
                            expected: "array"@,
                            position: frags[fi].1,
                        },
                    )
                } else {
                    match m_prepare_header_step(elems.last(), frags, fi) {
                        Err(e) => Err(e),
                        Ok(nl) => Ok(
                            ValueM::Array { elems: elems.update(elems.len() - 1, nl), pos },
                        ),
                    }
                }
            },
            other => m_prepare_header_step(other, frags, fi),
        }
    }
}

/// One header step on a node that must now be a table.
pub open spec fn m_prepare_header_step(
    node: ValueM,
    frags: Seq<(Seq<char>, Pos)>,
    fi: int,
) -> Result<ValueM, ErrM>
    decreases frags.len() - fi, node, 0int,
{
    if !(0 <= fi < frags.len()) {
        Err(m_dead_end())
    } else {
        match node {
            ValueM::Table { entries, pos } => {
                let key = frags[fi].0;
                let sub = match m_lookup(entries, key) {
                    Some(child) => m_prepare_header(child, frags, fi + 1),
                    None => m_prepare_header(m_new_table(frags[fi].1), frags, fi + 1),
                };
                match sub {
                    Err(e) => Err(e),
                    Ok(nc) => Ok(ValueM::Table { entries: m_insert(entries, key, nc), pos }),
                }
            },
            other => Err(
                ErrM::IncorrectType {
                    got: m_type_str(other),
                    expected: "table"@,
                    position: frags[fi].1,
                },
            ),
        }
    }
}

/// Walking a header path and binding one pair under the node it
/// reaches.
pub open spec fn m_insert_under(
    root: ValueM,
    frags: Seq<(Seq<char>, Pos)>,
    fi: int,
    kvpath: Seq<crate::token::TokenM>,
    value: ValueM,
    epos: Pos,
) -> Result<ValueM, ErrM>
    decreases frags.len() - fi, root, 1int,
{
    if !(0 <= fi <= frags.len()) {
        Err(m_dead_end())
    } else if fi == frags.len() {
        m_insert_path(root, kvpath, 0, value, epos)
    } else {
        match root {
            ValueM::Array { elems, pos } => {
                if elems.len() == 0 {
                    Err(
                        ErrM::IncorrectType {
                            got: "array"@,
                            expected: "array"@,
                            position: frags[fi].1,
                        },
                    )
                } else {
                    match m_insert_under_step(elems.last(), frags, fi, kvpath, value, epos) {
                        Err(e) => Err(e),
                        Ok(nl) => Ok(
                            ValueM::Array { elems: elems.update(elems.len() - 1, nl), pos },
                        ),
                    }
                }
            },
            other => m_insert_under_step(other, frags, fi, kvpath, value, epos),
        }
    }
}

/// One step of [`m_insert_under`] on a node that must now be a table.
pub open spec fn m_insert_under_step(
    node: ValueM,
    frags: Seq<(Seq<char>, Pos)>,
    fi: int,
    kvpath: Seq<crate::token::TokenM>,
    value: ValueM,
    epos: Pos,
) -> Result<ValueM, ErrM>
    decreases frags.len() - fi, node, 0int,
{
    if !(0 <= fi < frags.len()) {
        Err(m_dead_end())
    } else {
        match node {
            ValueM::Table { entries, pos } => {
                let key = frags[fi].0;
                let sub = match m_lookup(entries, key) {
                    Some(child) => m_insert_under(child, frags, fi + 1, kvpath, value, epos),
                    None => m_insert_under(
                        m_new_table(frags[fi].1),
                        frags,
                        fi + 1,
                        kvpath,
                        value,
                        epos,
                    ),
                };
                match sub {
                    Err(e) => Err(e),
                    Ok(nc) => Ok(ValueM::Table { entries: m_insert(entries, key, nc), pos }),
                }
            },
            other => Err(
                ErrM::IncorrectType {
                    got: m_type_str(other),
                    expected: "table"@,
                    position: frags[fi].1,
                },
            ),
        }
    }
}

/// Walking a `[[...]]` path, creating tables and the final array; the
/// node the path reaches must be an array.
pub open spec fn m_prepare_aot(
    root: ValueM,
    frags: Seq<(Seq<char>, Pos)>,
    fi: int,
    lbpos: Pos,
) -> Result<ValueM, ErrM>
    decreases frags.len() - fi, root, 1int,
{
    if !(0 <= fi <= frags.len()) {
        Err(m_dead_end())
    } else if fi == frags.len() {
        if root is Array {
            Ok(root)
        } else {
            Err(
                ErrM::IncorrectType {
                    got: m_type_str(root),
                    expected: "array"@,
                    position: lbpos,
                },
            )
        }
    } else {
        match root {
            ValueM::Array { elems, pos } => {
                if elems.len() == 0 {
                    Err(
                        ErrM::IncorrectType {
                            got: "array"@,
                            expected: "table"@,
                            position: frags[fi].1,
                        },
                    )
                } else {
                    match m_prepare_aot_step(elems.last(), frags, fi, lbpos) {
                        Err(e) => Err(e),
                        Ok(nl) => Ok(
                            ValueM::Array { elems: elems.update(elems.len() - 1, nl), pos },
                        ),
                    }
                }
            },
            other => m_prepare_aot_step(other, frags, fi, lbpos),
        }
    }
}

/// One step of [`m_prepare_aot`] on a node that must now be a table.
pub open spec fn m_prepare_aot_step(
    node: ValueM,
    frags: Seq<(Seq<char>, Pos)>,
    fi: int,
    lbpos: Pos,
) -> Result<ValueM, ErrM>
    decreases frags.len() - fi, node, 0int,
{
    if !(0 <= fi < frags.len()) {
        Err(m_dead_end())
    } else {
        match node {
            ValueM::Table { entries, pos } => {
                let key = frags[fi].0;
                let sub = match m_lookup(entries, key) {
                    Some(child) => m_prepare_aot(child, frags, fi + 1, lbpos),
                    None => {
                        let fresh = if fi + 1 == frags.len() {
                            ValueM::Array { elems: Seq::<ValueM>::empty(), pos: frags[fi].1 }
                        } else {
                            m_new_table(frags[fi].1)
                        };
                        m_prepare_aot(fresh, frags, fi + 1, lbpos)
                    },
                };
                match sub {
                    Err(e) => Err(e),
                    Ok(nc) => Ok(ValueM::Table { entries: m_insert(entries, key, nc), pos }),
                }
            },
            other => Err(
                ErrM::IncorrectType {
                    got: m_type_str(other),
                    expected: "table"@,
                    position: frags[fi].1,
                },
            ),
        }
    }
}

/// Walking a `[[...]]` path again and appending `elem` to the array the
/// path reaches.
pub open spec fn m_append_at(
    root: ValueM,
    frags: Seq<(Seq<char>, Pos)>,
    fi: int,
    elem: ValueM,
    lbpos: Pos,
) -> Result<ValueM, ErrM>
    decreases frags.len() - fi, root, 1int,
{
    if !(0 <= fi <= frags.len()) {
        Err(m_dead_end())
    } else if fi == frags.len() {
        match root {
            ValueM::Array { elems, pos } => Ok(ValueM::Array { elems: elems.push(elem), pos }),
            other => Err(
                ErrM::IncorrectType {
                    got: m_type_str(other),
                    expected: "array"@,
                    position: lbpos,
                },
            ),
        }
    } else {
        match root {
            ValueM::Array { elems, pos } => {
                if elems.len() == 0 {
                    Err(
                        ErrM::IncorrectType {
                            got: "array"@,
                            expected: "table"@,
                            position: frags[fi].1,
                        },
                    )
                } else {
                    match m_append_at_step(elems.last(), frags, fi, elem, lbpos) {
                        Err(e) => Err(e),
                        Ok(nl) => Ok(
                            ValueM::Array { elems: elems.update(elems.len() - 1, nl), pos },
                        ),
                    }
                }
            },
            other => m_append_at_step(other, frags, fi, elem, lbpos),
        }
    }
}

/// One step of [`m_append_at`] on a node that must now be a table.
pub open spec fn m_append_at_step(
    node: ValueM,
    frags: Seq<(Seq<char>, Pos)>,
    fi: int,
    elem: ValueM,
    lbpos: Pos,
) -> Result<ValueM, ErrM>
    decreases frags.len() - fi, node, 0int,
{
    if !(0 <= fi < frags.len()) {
        Err(m_dead_end())
    } else {
        match node {
            ValueM::Table { entries, pos } => {
                let key = frags[fi].0;
                match m_lookup(entries, key) {
                    Some(child) => match m_append_at(child, frags, fi + 1, elem, lbpos) {
                        Err(e) => Err(e),
                        Ok(nc) => Ok(
                            ValueM::Table { entries: m_insert(entries, key, nc), pos },
                        ),
                    },
                    None => Err(
                        ErrM::IncorrectType {
                            got: "table"@,
                            expected: "array"@,
                            position: frags[fi].1,
                        },
                    ),
                }
            },
            other => Err(
                ErrM::IncorrectType {
                    got: m_type_str(other),
                    expected: "table"@,
                    position: frags[fi].1,
                },
            ),
        }
    }
}

/// The pair-reading continuation of a `[header]` section.
pub open spec fn m_mlt_loop(
    gs: Seq<Seq<char>>,
    i: int,
    frags: Seq<(Seq<char>, Pos)>,
    cur: ValueM,
    depth: int,
) -> Result<(ValueM, int), ErrM>
    decreases gs.len() - i,
{
    if !(0 <= i <= gs.len()) {
        Err(m_dead_end())
    } else {
        let pk = model_token(gs, i);
        if pk.type_ is LeftBracket || m_at_end(gs, i) {
            Ok((cur, i))
        } else {
            match m_parse_kv_raw(gs, i, depth) {
                Err(e) => Err(e),
                Ok((path, val, epos, i2)) => match m_insert_under(
                    cur,
                    frags,
                    0,
                    path,
                    val,
                    epos,
                ) {
                    Err(e) => Err(e),
                    Ok(c2) => {
                        if i < i2 <= gs.len() {
                            m_mlt_loop(gs, i2, frags, c2, depth)
                        } else {
                            Ok((c2, i2))
                        }
                    },
                },
            }
        }
    }
}

/// Reading a `[table.header]` section into `root`.  Opaque: the
/// reader's own proof unfolds it once.
#[verifier::opaque]
pub open spec fn m_parse_multiline_table(
    gs: Seq<Seq<char>>,
    i: int,
    root: ValueM,
    depth: int,
) -> Result<(ValueM, int), ErrM> {
    if !(0 <= i <= gs.len()) {
        Err(m_dead_end())
    } else if depth > MAX_DEPTH {
        Err(
            ErrM::ParseError {
                reason: "recursion limit exceeded"@,
                position: model_token(gs, i).pos,
            },
        )
    } else {
        let d2 = depth + 1;
        match m_consume(gs, i, TokenType::LeftBracket) {
            Err(e) => Err(e),
            Ok((_, i2)) => match m_parse_path(gs, i2) {
                Err(e) => Err(e),
                Ok((path, i3)) => match m_consume(gs, i3, TokenType::RightBracket) {
                    Err(e) => Err(e),
                    Ok((_, i4)) => {
                        let frags = Seq::new(path.len(), |j: int| m_strip_frag(path[j]));
                        match m_prepare_header(root, frags, 0) {
                            Err(e) => Err(e),
                            Ok(cur) => m_mlt_loop(gs, i4, frags, cur, d2),
                        }
                    },
                },
            },
        }
    }
}

/// The pair-reading continuation of a `[[header]]` element.
pub open spec fn m_mae_loop(gs: Seq<Seq<char>>, i: int, table: ValueM, depth: int) -> Result<
    (ValueM, int),
    ErrM,
>
    decreases gs.len() - i,
{
    if !(0 <= i <= gs.len()) {
        Err(m_dead_end())
    } else {
        let pk = model_token(gs, i);
        if pk.type_ is LeftBracket || m_at_end(gs, i) {
            Ok((table, i))
        } else {
            match m_parse_kv(gs, i, table, depth) {
                Err(e) => Err(e),
                Ok((t2, i2)) => {
                    if i < i2 <= gs.len() {
                        m_mae_loop(gs, i2, t2, depth)
                    } else {
                        Ok((t2, i2))
                    }
                },
            }
        }
    }
}

/// Reading a `[[array.of.tables]]` element into `root`.  Opaque: the
/// reader's own proof unfolds it once.
#[verifier::opaque]
pub open spec fn m_parse_mae(gs: Seq<Seq<char>>, i: int, root: ValueM, depth: int) -> Result<
    (ValueM, int),
    ErrM,
> {
    if !(0 <= i <= gs.len()) {
        Err(m_dead_end())
    } else if depth > MAX_DEPTH {
        Err(
            ErrM::ParseError {
                reason: "recursion limit exceeded"@,
                position: model_token(gs, i).pos,
            },
        )
    } else {
        let d2 = depth + 1;
        match m_consume(gs, i, TokenType::LeftBracket) {
            Err(e) => Err(e),
            Ok((lb, i2)) => match m_consume(gs, i2, TokenType::LeftBracket) {
                Err(e) => Err(e),
                Ok((_, i3)) => match m_parse_path(gs, i3) {
                    Err(e) => Err(e),
                    Ok((path, i4)) => match m_consume(gs, i4, TokenType::RightBracket) {
                        Err(e) => Err(e),
                        Ok((_, i5)) => match m_consume(gs, i5, TokenType::RightBracket) {
                            Err(e) => Err(e),
                            Ok((_, i6)) => {
                                let frags = Seq::new(
                                    path.len(),
                                    |j: int| (path[j].lexeme, path[j].pos),
                                );
                                match m_prepare_aot(root, frags, 0, lb.pos) {
                                    Err(e) => Err(e),
                                    Ok(root2) => {
                                        let t0 = m_new_table(model_token(gs, i6).pos);
                                        match m_mae_loop(gs, i6, t0, d2) {
                                            Err(e) => Err(e),
                                            Ok((table, i7)) => match m_append_at(
                                                root2,
                                                frags,
                                                0,
                                                table,
                                                lb.pos,
                                            ) {
                                                Err(e) => Err(e),
                                                Ok(root3) => Ok((root3, i7)),
                                            },
                                        }
                                    },
                                }
                            },
                        },
                    },
                },
            },
        }
    }
}

/// The statement-reading continuation of a whole document.  Opaque: its
/// one unfolding is packaged in `lemma_parse_loop_step`.
#[verifier::opaque]
pub open spec fn m_parse_loop(gs: Seq<Seq<char>>, i: int, top: ValueM) -> Result<ValueM, ErrM>
    decreases gs.len() - i,
{
    if !(0 <= i <= gs.len()) {
        Err(m_dead_end())
    } else {
        let pk = model_token(gs, i);
        if pk.type_ is Eof {
            Ok(top)
        } else if crate::token::spec_may_be_key(pk.type_) {
            match m_parse_kv(gs, i, top, 0) {
                Err(e) => Err(e),
                Ok((t2, i2)) => {
                    if i < i2 <= gs.len() {
                        m_parse_loop(gs, i2, t2)
                    } else {
                        Ok(t2)
                    }
                },
            }
        } else if pk.type_ is LeftBracket {
            let second = model_token(gs, next_index(gs, i));
            let step = if second.type_ is LeftBracket {
                m_parse_mae(gs, i, top, 0)
            } else {
                m_parse_multiline_table(gs, i, top, 0)
            };
            match step {
                Err(e) => Err(e),
                Ok((t2, i2)) => {
                    if i < i2 <= gs.len() {
                        m_parse_loop(gs, i2, t2)
                    } else {
                        Ok(t2)
                    }
                },
            }
        } else {
            Err(
                ErrM::ParseError {
                    reason: "expected key or table header, got '"@ + pk.lexeme + "'"@,
                    position: pk.pos,
                },
            )
        }
    }
}

/// Reading a whole document: the root table built from the token stream.
pub open spec fn m_parse(gs: Seq<Seq<char>>) -> Result<ValueM, ErrM> {
    m_parse_loop(gs, 0, m_new_table(model_token(gs, 0).pos))
}

} // verus!
