//! What the tree builder computes from a token sequence, stated as recursive
//! descent over positions in the sequence.
use vstd::prelude::*;
use crate::token::TokenModel;
use crate::value::Json;

verus! {

/// Where an object's assembly stands between tokens.
pub enum KeyState {
    AwaitKey,
    AwaitColon(Seq<char>),
    AwaitValue(Seq<char>),
    AwaitCommaOrClose,
}

/// The value that a self-contained token stands for, if it is one.
pub open spec fn scalar_of(t: TokenModel) -> Option<Json> {
    match t {
        TokenModel::Str(s) => Some(Json::Str(s)),
        TokenModel::Number(n) => Some(Json::Number(n)),
        TokenModel::Boolean(b) => Some(Json::Boolean(b)),
        TokenModel::Null => Some(Json::Null),
        _ => None,
    }
}

/// The key that a value arriving now would be stored under.
pub open spec fn pending_key(st: KeyState) -> Option<Seq<char>> {
    match st {
        KeyState::AwaitColon(k) => Some(k),
        KeyState::AwaitValue(k) => Some(k),
        _ => None,
    }
}

/// The state after a value was stored under the pending key.
pub open spec fn after_value(st: KeyState) -> KeyState {
    match st {
        KeyState::AwaitValue(_) => KeyState::AwaitCommaOrClose,
        _ => KeyState::AwaitKey,
    }
}

/// The state after a colon.
pub open spec fn after_colon(st: KeyState) -> KeyState {
    match st {
        KeyState::AwaitKey => KeyState::AwaitCommaOrClose,
        KeyState::AwaitColon(k) => KeyState::AwaitValue(k),
        KeyState::AwaitValue(k) => KeyState::AwaitValue(k),
        KeyState::AwaitCommaOrClose => KeyState::AwaitCommaOrClose,
    }
}

/// The state after a comma.
pub open spec fn after_comma(st: KeyState) -> KeyState {
    match st {
        KeyState::AwaitKey => KeyState::AwaitKey,
        KeyState::AwaitColon(k) => KeyState::AwaitColon(k),
        KeyState::AwaitValue(k) => KeyState::AwaitColon(k),
        KeyState::AwaitCommaOrClose => KeyState::AwaitKey,
    }
}

/// The first index at or after `i` whose entry has key `k`, or `es.len()`.
pub open spec fn key_index(es: Seq<(Seq<char>, Json)>, k: Seq<char>, i: int) -> int
    decreases es.len() - i,
{
    if i < 0 || i >= es.len() {
        es.len() as int
    } else if es[i].0 == k {
        i
    } else {
        key_index(es, k, i + 1)
    }
}

/// Stores `v` under `k`: an entry with that key is replaced where it stands,
/// otherwise a new entry is appended.
pub open spec fn object_insert(es: Seq<(Seq<char>, Json)>, k: Seq<char>, v: Json) -> Seq<
    (Seq<char>, Json),
> {
    let idx = key_index(es, k, 0);
    if idx < es.len() {
        es.update(idx, (k, v))
    } else {
        es.push((k, v))
    }
}

/// Assembles array items from position `i` on, after `acc`: up to and
/// including the next array-close token, or to the end. Returns the items
/// and the position after what was consumed.
pub open spec fn build_array(ts: Seq<TokenModel>, i: int, acc: Seq<Json>) -> (Seq<Json>, int)
    decreases ts.len() - i,
{
    if i < 0 || i >= ts.len() {
        (acc, i)
    } else {
        match ts[i] {
            TokenModel::ArrayClose => (acc, i + 1),
            TokenModel::CurlyOpen => {
                let (es, j) = build_object(ts, i + 1, KeyState::AwaitKey, Seq::empty());
                let acc2 = acc.push(Json::Object(es));
                if i < j <= ts.len() {
                    build_array(ts, j, acc2)
                } else {
                    (acc2, j)
                }
            },
            TokenModel::ArrayOpen => {
                let (items, j) = build_array(ts, i + 1, Seq::empty());
                let acc2 = acc.push(Json::Array(items));
                if i < j <= ts.len() {
                    build_array(ts, j, acc2)
                } else {
                    (acc2, j)
                }
            },
            t => match scalar_of(t) {
                Some(v) => build_array(ts, i + 1, acc.push(v)),
                None => build_array(ts, i + 1, acc),
            },
        }
    }
}

/// Assembles object entries from position `i` on, in state `st`, after `es`:
/// up to and including the next object-close token, or to the end. Returns
/// the entries and the position after what was consumed.
pub open spec fn build_object(ts: Seq<TokenModel>, i: int, st: KeyState, es: Seq<(Seq<char>, Json)>) -> (
    Seq<(Seq<char>, Json)>,
    int,
)
    decreases ts.len() - i,
{
    if i < 0 || i >= ts.len() {
        (es, i)
    } else {
        match ts[i] {
            TokenModel::CurlyClose => (es, i + 1),
            TokenModel::CurlyOpen => match pending_key(st) {
                Some(k) => {
                    let (inner, j) = build_object(ts, i + 1, KeyState::AwaitKey, Seq::empty());
                    let es2 = object_insert(es, k, Json::Object(inner));
                    if i < j <= ts.len() {
                        build_object(ts, j, after_value(st), es2)
                    } else {
                        (es2, j)
                    }
                },
                None => build_object(ts, i + 1, st, es),
            },
            TokenModel::ArrayOpen => match pending_key(st) {
                Some(k) => {
                    let (items, j) = build_array(ts, i + 1, Seq::empty());
                    let es2 = object_insert(es, k, Json::Array(items));
                    if i < j <= ts.len() {
                        build_object(ts, j, after_value(st), es2)
                    } else {
                        (es2, j)
                    }
                },
                None => build_object(ts, i + 1, st, es),
            },
            TokenModel::Colon => build_object(ts, i + 1, after_colon(st), es),
            TokenModel::Comma => build_object(ts, i + 1, after_comma(st), es),
            TokenModel::Str(s) => match st {
                KeyState::AwaitValue(k) => build_object(
                    ts,
                    i + 1,
                    KeyState::AwaitCommaOrClose,
                    object_insert(es, k, Json::Str(s)),
                ),
                KeyState::AwaitCommaOrClose => build_object(ts, i + 1, st, es),
                _ => build_object(ts, i + 1, KeyState::AwaitColon(s), es),
            },
            t => match (scalar_of(t), pending_key(st)) {
                (Some(v), Some(k)) => build_object(ts, i + 1, after_value(st), object_insert(es, k, v)),
                _ => build_object(ts, i + 1, st, es),
            },
        }
    }
}

/// The document value: the last self-contained value or completed structure
/// seen at the top level from position `i` on, `cur` if there is none.
pub open spec fn build_top(ts: Seq<TokenModel>, i: int, cur: Json) -> Json
    decreases ts.len() - i,
{
    if i < 0 || i >= ts.len() {
        cur
    } else {
        match ts[i] {
            TokenModel::CurlyOpen => {
                let (es, j) = build_object(ts, i + 1, KeyState::AwaitKey, Seq::empty());
                if i < j <= ts.len() {
                    build_top(ts, j, Json::Object(es))
                } else {
                    Json::Object(es)
                }
            },
            TokenModel::ArrayOpen => {
                let (items, j) = build_array(ts, i + 1, Seq::empty());
                if i < j <= ts.len() {
                    build_top(ts, j, Json::Array(items))
                } else {
                    Json::Array(items)
                }
            },
            t => match scalar_of(t) {
                Some(v) => build_top(ts, i + 1, v),
                None => build_top(ts, i + 1, cur),
            },
        }
    }
}

/// The tree that a token sequence describes.
pub open spec fn tree_of(ts: Seq<TokenModel>) -> Json {
    build_top(ts, 0, Json::Null)
}

} // verus!
