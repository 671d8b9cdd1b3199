//! JSON text, read and written by the `rustc_serialize` crate. What this
//! module states of that crate is believed, not proved. The crate follows
//! the nesting of a text by recursion, and so do the two conversions here.

use crate::error::{GraphError, ParseReason};
use crate::screen::{readable, refusal, screen, MAX_DEPTH};
use crate::tree::{shallow, Tree, TreeView};
use rustc_serialize::json::{Json, ParserError};
use vstd::prelude::*;

verus! {

/// `rustc_serialize::json::Json`, a JSON value of that crate.
#[verifier::external_type_specification]
#[verifier::external_body]
pub struct ExJson(Json);

/// `rustc_serialize::json::ParserError`, its error for a text that is no JSON.
#[verifier::external_type_specification]
#[verifier::external_body]
pub struct ExParserError(ParserError);

/// The tree that `Json::from_str` reads from a text, or `None` where it
/// rejects the text.
pub uninterp spec fn parsed_text(text: Seq<char>) -> Option<TreeView>;

/// The text that `Json` writes for a tree through its `Display`: compact,
/// the members of each object in the byte order of their keys.
pub uninterp spec fn written_text(tree: TreeView) -> Seq<char>;

/// The conversion that `read_json` applies to what `Json::from_str` hands
/// back: a `Json` becomes the tree with the same values, variant by variant.
/// The members of an object come in the order of its `BTreeMap`; the value
/// of a number with a fraction or an exponent is left behind.
#[verifier::external_body]
fn tree_of_json(json: Json) -> Tree {
    match json {
        Json::Null => Tree::Null,
        Json::Boolean(b) => Tree::Boolean(b),
        Json::I64(n) => Tree::I64(n),
        Json::U64(n) => Tree::U64(n),
        Json::F64(_) => Tree::Real,
        Json::String(s) => Tree::String(s),
        Json::Array(items) => Tree::Array(items.into_iter().map(tree_of_json).collect()),
        Json::Object(members) => Tree::Object(
            members.into_iter().map(|(k, v)| (k, tree_of_json(v))).collect(),
        ),
    }
}

/// The conversion that `write_json` applies before it calls `to_string`: a
/// tree becomes the `Json` with the same values, variant by variant. Of two
/// members of an object under one key the later one stays; a number whose
/// value was left behind becomes `Null`, as the crate writes a number that
/// JSON cannot write.
#[verifier::external_body]
fn json_of_tree(tree: &Tree) -> Json {
    match tree {
        Tree::Null => Json::Null,
        Tree::Boolean(b) => Json::Boolean(*b),
        Tree::I64(n) => Json::I64(*n),
        Tree::U64(n) => Json::U64(*n),
        Tree::Real => Json::Null,
        Tree::String(s) => Json::String(s.clone()),
        Tree::Array(items) => Json::Array(items.iter().map(json_of_tree).collect()),
        Tree::Object(members) => Json::Object(
            members.iter().map(|(k, v)| (k.clone(), json_of_tree(v))).collect(),
        ),
    }
}

/// Calls `Json::from_str`. The result depends on the text alone: the tree
/// that the text writes, or the parser's error where it is no JSON. On a
/// text that `readable` admits the call returns:
/// - the parser keeps the keys of the open objects in a buffer that it
///   indexes by 16 bits, counts the items of an array in 32 bits, adds up the
///   digits of an exponent and follows nesting by recursion; within the
///   limits of `readable` none of these runs over;
/// - the parser keeps a stack of the keys and indices under which it stands,
///   and the builder takes the key of each member from its top. Every path
///   of the parser takes from the stack what it has put there, but one: at a
///   closing brace after a comma it takes one entry too many, after which
///   the builder can find an index where it needs a key. `readable` admits
///   no text with a comma before a closing brace.
///
/// The parser opens an object or an array of the tree only at an opening
/// brace or bracket of the text, so the tree nests no deeper than the text,
/// which `readable` holds to `MAX_DEPTH`.
#[verifier::external_body]
fn read_json(text: &str) -> (r: Result<Tree, ParserError>)
    requires
        readable(text@),
    ensures
        match r {
            Ok(tree) => parsed_text(text@) == Some(tree@) && shallow(tree@, MAX_DEPTH as nat),
            Err(_) => parsed_text(text@) is None,
        },
{
    Json::from_str(text).map(tree_of_json)
}

/// Calls `to_string` on the `Json` of a tree, which writes it through the
/// crate's `Display`. The result depends on the values of the tree alone.
/// The conversion and the crate's writer follow the nesting of the tree by
/// recursion, which `MAX_DEPTH` bounds.
#[verifier::external_body]
fn write_json(tree: &Tree) -> (r: String)
    requires
        shallow(tree@, MAX_DEPTH as nat),
    ensures
        r@ == written_text(tree@),
{
    json_of_tree(tree).to_string()
}

/// What reading a text gives: the tree that the parser reads from it, or
/// the reason why there is none.
pub open spec fn read_text(text: Seq<char>) -> Result<TreeView, GraphError> {
    match refusal(text) {
        Some(reason) => Err(GraphError::ParseError { reason }),
        None => match parsed_text(text) {
            Some(tree) => Ok(tree),
            None => Err(GraphError::ParseError { reason: ParseReason::Syntax }),
        },
    }
}

impl Tree {
    /// Reads a JSON text. Fails with the reason `Oversize` where the text
    /// is beyond the limits of the parser, and with `Syntax` where it is no
    /// JSON: where a comma stands before a closing brace or bracket, or the
    /// parser rejects it.
    pub fn from_str(text: &str) -> (r: Result<Tree, GraphError>)
        ensures
            match r {
                Ok(tree) => read_text(text@) == Ok::<TreeView, GraphError>(tree@) && shallow(
                    tree@,
                    MAX_DEPTH as nat,
                ),
                Err(e) => read_text(text@) == Err::<TreeView, GraphError>(e),
            },
    {
        if let Some(reason) = screen(text) {
            return Err(GraphError::ParseError { reason });
        }
        match read_json(text) {
            Ok(tree) => Ok(tree),
            Err(_) => Err(GraphError::ParseError { reason: ParseReason::Syntax }),
        }
    }

    /// Writes the tree as compact JSON text. Of two members of an object
    /// under one key the later one is written, and `null` for a number whose
    /// value was not kept. The tree may nest `MAX_DEPTH` objects and arrays
    /// in one another, which `is_shallow` tests.
    pub fn to_string(&self) -> (r: String)
        requires
            shallow(self@, MAX_DEPTH as nat),
        ensures
            r@ == written_text(self@),
    {
        write_json(self)
    }
}

} // verus!
