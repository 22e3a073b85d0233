//! A JSON parser: a streaming UTF-8 decoder, a tokenizer for a relaxed JSON
//! grammar and a tree builder, each stated against a specification.
pub mod error;
pub mod reader;
pub mod token;
pub mod tree;
pub mod value;

use vstd::prelude::*;
use crate::error::ParseError;
use crate::reader::{JsonReader, decoded_stream, utf8_failure, lemma_stream_decodes_whole};
use vstd::utf8::{valid_utf8, decode_utf8};
use crate::token::{JsonTokenizer, Token, tokens_model, tokens_of};
use crate::tree::{
    KeyState, scalar_of, pending_key, after_value, after_colon, after_comma, key_index,
    object_insert, build_array, build_object, build_top, tree_of,
};
use crate::value::{Value, Json, items_model, entries_model, lemma_array_view, lemma_object_view};

verus! {

/// The object assembly state, holding the pending key where there is one.
pub enum ObjectState {
    AwaitKey,
    AwaitColon(String),
    AwaitValue(String),
    AwaitCommaOrClose,
}

impl View for ObjectState {
    type V = KeyState;

    open spec fn view(&self) -> KeyState {
        match self {
            ObjectState::AwaitKey => KeyState::AwaitKey,
            ObjectState::AwaitColon(k) => KeyState::AwaitColon(k@),
            ObjectState::AwaitValue(k) => KeyState::AwaitValue(k@),
            ObjectState::AwaitCommaOrClose => KeyState::AwaitCommaOrClose,
        }
    }
}

impl ObjectState {
    /// Splits off the pending key, if any, with the state after a value was
    /// stored under it.
    fn take_key(self) -> (r: (ObjectState, Option<String>))
        ensures
            r.1.is_some() == pending_key(self@).is_some(),
            r.1.is_some() ==> r.1.unwrap()@ == pending_key(self@).unwrap(),
            r.1.is_some() ==> r.0@ == after_value(self@),
            r.1.is_none() ==> r.0@ == self@,
    {
        match self {
            ObjectState::AwaitColon(k) => (ObjectState::AwaitKey, Some(k)),
            ObjectState::AwaitValue(k) => (ObjectState::AwaitCommaOrClose, Some(k)),
            other => (other, None),
        }
    }

    fn colon(self) -> (r: ObjectState)
        ensures
            r@ == after_colon(self@),
    {
        match self {
            ObjectState::AwaitKey => ObjectState::AwaitCommaOrClose,
            ObjectState::AwaitColon(k) => ObjectState::AwaitValue(k),
            ObjectState::AwaitValue(k) => ObjectState::AwaitValue(k),
            ObjectState::AwaitCommaOrClose => ObjectState::AwaitCommaOrClose,
        }
    }

    fn comma(self) -> (r: ObjectState)
        ensures
            r@ == after_comma(self@),
    {
        match self {
            ObjectState::AwaitKey => ObjectState::AwaitKey,
            ObjectState::AwaitColon(k) => ObjectState::AwaitColon(k),
            ObjectState::AwaitValue(k) => ObjectState::AwaitColon(k),
            ObjectState::AwaitCommaOrClose => ObjectState::AwaitKey,
        }
    }
}

/// The value that a self-contained token stands for.
fn scalar_value(t: &Token) -> (r: Option<Value>)
    ensures
        r.is_some() == scalar_of(t@).is_some(),
        r.is_some() ==> scalar_of(t@) == Some(r.unwrap()@),
{
    match t {
        Token::String(s) => Some(Value::String(s.clone())),
        Token::Number(n) => Some(Value::Number(n.copied())),
        Token::Boolean(b) => Some(Value::Boolean(*b)),
        Token::Null => Some(Value::Null),
        _ => None,
    }
}

/// Stores `v` under `k`, replacing the entry with that key if there is one.
pub fn object_put(entries: &mut Vec<(String, Value)>, k: String, v: Value)
    ensures
        entries_model(final(entries)@) == object_insert(entries_model(old(entries)@), k@, v@),
{
    let ghost es = entries_model(entries@);
    let mut i: usize = 0;
    while i < entries.len()
        invariant
            i <= entries.len(),
            es == entries_model(entries@),
            es == entries_model(old(entries)@),
            key_index(es, k@, 0) == key_index(es, k@, i as int),
        decreases entries.len() - i,
    {
        if entries[i].0 == k {
            assert(key_index(es, k@, i as int) == i);
            entries.set(i, (k, v));
            assert(entries_model(entries@) =~= es.update(i as int, (k@, v@)));
            return;
        }
        i += 1;
    }
    entries.push((k, v));
    assert(entries_model(entries@) =~= es.push((k@, v@)));
}

/// What parsing `b` gives: the tree that its tokens describe, or the first
/// error met while decoding and lexing it.
pub open spec fn parse_result(b: Seq<u8>) -> Result<Json, ParseError> {
    let (cs, e) = decoded_stream(b, 0);
    match tokens_of(cs, utf8_failure(e)) {
        Ok(ts) => Ok(tree_of(ts)),
        Err(err) => Err(err),
    }
}

/// On valid UTF-8 the decoder plays no part: parsing lexes the characters
/// that decoding the whole input at once gives.
pub proof fn lemma_parse_valid_utf8(b: Seq<u8>)
    requires
        valid_utf8(b),
    ensures
        parse_result(b) == match tokens_of(decode_utf8(b), None) {
            Ok(ts) => Ok::<Json, ParseError>(tree_of(ts)),
            Err(err) => Err::<Json, ParseError>(err),
        },
{
    lemma_stream_decodes_whole(b, 0);
}

/// Parsing depends on the input bytes alone: two parses of the same input,
/// wherever they happen, give structurally equal trees or the same error.
pub proof fn lemma_parse_deterministic(a: Seq<u8>, b: Seq<u8>)
    requires
        a == b,
    ensures
        parse_result(a) == parse_result(b),
{
}

/// The parser: decoder, tokenizer and tree builder in sequence.
pub struct JsonParser;

impl JsonParser {
    /// Parses a document held in memory.
    pub fn parse_from_bytes(input: &[u8]) -> (r: Result<Value, ParseError>)
        ensures
            match r {
                Ok(v) => parse_result(input@) == Ok::<Json, ParseError>(v@),
                Err(e) => parse_result(input@) == Err::<Json, ParseError>(e),
            },
    {
        let json_reader = JsonReader::from_bytes(input);
        let json_tokenizer = JsonTokenizer::new(json_reader);
        let tokens = json_tokenizer.tokenize_json()?;
        Ok(Self::tokens_to_value(tokens.as_slice()))
    }

    /// Builds the document value from a token sequence: the last value or
    /// completed structure at the top level, `Null` if there is none.
    pub fn tokens_to_value(tokens: &[Token]) -> (r: Value)
        ensures
            r@ == tree_of(tokens_model(tokens@)),
    {
        let ghost ts = tokens_model(tokens@);
        let mut value = Value::Null;
        let mut cursor: usize = 0;
        while cursor < tokens.len()
            invariant
                cursor <= tokens.len(),
                ts == tokens_model(tokens@),
                build_top(ts, 0, Json::Null) == build_top(ts, cursor as int, value@),
            decreases tokens.len() - cursor,
        {
            let i = cursor;
            assert(ts[i as int] == tokens@[i as int]@);
            match &tokens[i] {
                Token::CurlyOpen => {
                    cursor = i + 1;
                    let entries = Self::process_object(tokens, &mut cursor);
                    proof {
                        lemma_object_view(entries);
                    }
                    value = Value::Object(entries);
                },
                Token::ArrayOpen => {
                    cursor = i + 1;
                    let items = Self::process_array(tokens, &mut cursor);
                    proof {
                        lemma_array_view(items);
                    }
                    value = Value::Array(items);
                },
                t => {
                    match scalar_value(t) {
                        Some(v) => value = v,
                        None => {},
                    }
                    cursor = i + 1;
                },
            }
        }
        value
    }

    /// Assembles array items from `*cursor` on, up to and including the next
    /// array-close token, or to the end; moves the cursor past them.
    pub fn process_array(tokens: &[Token], cursor: &mut usize) -> (r: Vec<Value>)
        requires
            *old(cursor) <= tokens.len(),
        ensures
            (items_model(r@), *final(cursor) as int) == build_array(
                tokens_model(tokens@),
                *old(cursor) as int,
                Seq::empty(),
            ),
            *final(cursor) <= tokens.len(),
            *old(cursor) < tokens.len() ==> *old(cursor) < *final(cursor),
        decreases tokens.len() - *old(cursor),
    {
        let ghost ts = tokens_model(tokens@);
        let ghost start = *cursor as int;
        let mut items: Vec<Value> = Vec::new();
        assert(items_model(items@) =~= Seq::<Json>::empty());
        while *cursor < tokens.len()
            invariant
                start == *old(cursor),
                start <= *cursor <= tokens.len(),
                ts == tokens_model(tokens@),
                build_array(ts, start, Seq::empty()) == build_array(ts, *cursor as int, items_model(items@)),
            decreases tokens.len() - *cursor,
        {
            let i = *cursor;
            assert(ts[i as int] == tokens@[i as int]@);
            let ghost acc = items_model(items@);
            match &tokens[i] {
                Token::ArrayClose => {
                    *cursor = i + 1;
                    return items;
                },
                Token::CurlyOpen => {
                    *cursor = i + 1;
                    let entries = Self::process_object(tokens, cursor);
                    proof {
                        lemma_object_view(entries);
                    }
                    items.push(Value::Object(entries));
                    assert(items_model(items@) =~= acc.push(Json::Object(entries_model(entries@))));
                },
                Token::ArrayOpen => {
                    *cursor = i + 1;
                    let inner = Self::process_array(tokens, cursor);
                    proof {
                        lemma_array_view(inner);
                    }
                    items.push(Value::Array(inner));
                    assert(items_model(items@) =~= acc.push(Json::Array(items_model(inner@))));
                },
                t => {
                    match scalar_value(t) {
                        Some(v) => {
                            items.push(v);
                            assert(items_model(items@) =~= acc.push(scalar_of(t@).unwrap()));
                        },
                        None => {},
                    }
                    *cursor = i + 1;
                },
            }
        }
        items
    }

    /// Assembles object entries from `*cursor` on, up to and including the
    /// next object-close token, or to the end; moves the cursor past them.
    pub fn process_object(tokens: &[Token], cursor: &mut usize) -> (r: Vec<(String, Value)>)
        requires
            *old(cursor) <= tokens.len(),
        ensures
            (entries_model(r@), *final(cursor) as int) == build_object(
                tokens_model(tokens@),
                *old(cursor) as int,
                KeyState::AwaitKey,
                Seq::empty(),
            ),
            *final(cursor) <= tokens.len(),
            *old(cursor) < tokens.len() ==> *old(cursor) < *final(cursor),
        decreases tokens.len() - *old(cursor),
    {
        let ghost ts = tokens_model(tokens@);
        let ghost start = *cursor as int;
        let mut entries: Vec<(String, Value)> = Vec::new();
        let mut state = ObjectState::AwaitKey;
        assert(entries_model(entries@) =~= Seq::<(Seq<char>, Json)>::empty());
        while *cursor < tokens.len()
            invariant
                start == *old(cursor),
                start <= *cursor <= tokens.len(),
                ts == tokens_model(tokens@),
                build_object(ts, start, KeyState::AwaitKey, Seq::empty()) == build_object(
                    ts,
                    *cursor as int,
                    state@,
                    entries_model(entries@),
                ),
            decreases tokens.len() - *cursor,
        {
            let i = *cursor;
            assert(ts[i as int] == tokens@[i as int]@);
            match &tokens[i] {
                Token::CurlyClose => {
                    *cursor = i + 1;
                    return entries;
                },
                Token::CurlyOpen => {
                    *cursor = i + 1;
                    let (next, key) = state.take_key();
                    state = next;
                    match key {
                        Some(k) => {
                            let inner = Self::process_object(tokens, cursor);
                            proof {
                                lemma_object_view(inner);
                            }
                            object_put(&mut entries, k, Value::Object(inner));
                        },
                        None => {},
                    }
                },
                Token::ArrayOpen => {
                    *cursor = i + 1;
                    let (next, key) = state.take_key();
                    state = next;
                    match key {
                        Some(k) => {
                            let inner = Self::process_array(tokens, cursor);
                            proof {
                                lemma_array_view(inner);
                            }
                            object_put(&mut entries, k, Value::Array(inner));
                        },
                        None => {},
                    }
                },
                Token::Colon => {
                    state = state.colon();
                    *cursor = i + 1;
                },
                Token::Comma => {
                    state = state.comma();
                    *cursor = i + 1;
                },
                Token::String(s) => {
                    match state {
                        ObjectState::AwaitValue(k) => {
                            object_put(&mut entries, k, Value::String(s.clone()));
                            state = ObjectState::AwaitCommaOrClose;
                        },
                        ObjectState::AwaitCommaOrClose => {
                            state = ObjectState::AwaitCommaOrClose;
                        },
                        _ => {
                            state = ObjectState::AwaitColon(s.clone());
                        },
                    }
                    *cursor = i + 1;
                },
                t => {
                    match scalar_value(t) {
                        Some(v) => {
                            let (next, key) = state.take_key();
                            state = next;
                            match key {
                                Some(k) => object_put(&mut entries, k, v),
                                None => {},
                            }
                        },
                        None => {},
                    }
                    *cursor = i + 1;
                },
            }
        }
        entries
    }
}

} // verus!
