//! Value change dumps, as the `vcd` crate reads them.

use std::collections::VecDeque;

use vstd::prelude::*;

use crate::text::{text_of, texts};

verus! {

/// A four-valued logic level.
#[derive(Debug, Clone, Copy, PartialEq, Eq, Structural)]
pub enum Value {
    V0,
    V1,
    X,
    Z,
}

/// A command of the value change section of a dump.
#[derive(Debug, PartialEq, Eq)]
pub enum Command {
    /// Simulation time moves to this value.
    Timestamp(u64),
    /// The one-bit signal with this identifier code takes a value.
    ChangeScalar(String, Value),
    /// The signal with this identifier code takes a value, most significant bit first.
    ChangeVector(String, Vec<Value>),
    /// Any other command.
    Other,
    /// The text at this place is no command; the message says why.
    Malformed(String),
}

/// An entry of a scope in the header of a dump.
#[derive(Debug, PartialEq, Eq)]
pub enum HeaderItem {
    Scope { identifier: String, items: Vec<HeaderItem> },
    Var { reference: String, code: String },
    Comment,
}

/// Content of a [`Command`].
pub enum CommandModel {
    Timestamp(u64),
    ChangeScalar(Seq<char>, Value),
    ChangeVector(Seq<char>, Seq<Value>),
    Other,
    Malformed(Seq<char>),
}

/// Content of a [`HeaderItem`].
pub enum ItemModel {
    Scope { identifier: Seq<char>, items: Seq<ItemModel> },
    Var { reference: Seq<char>, code: Seq<char> },
    Comment,
}

impl View for Command {
    type V = CommandModel;

    open spec fn view(&self) -> CommandModel {
        match *self {
            Command::Timestamp(time) => CommandModel::Timestamp(time),
            Command::ChangeScalar(code, value) => CommandModel::ChangeScalar(code@, value),
            Command::ChangeVector(code, bits) => CommandModel::ChangeVector(code@, bits@),
            Command::Other => CommandModel::Other,
            Command::Malformed(message) => CommandModel::Malformed(message@),
        }
    }
}

/// Content of a [`HeaderItem`].
pub open spec fn item_content(item: HeaderItem) -> ItemModel
    decreases item,
{
    match item {
        HeaderItem::Scope { identifier, items } => ItemModel::Scope {
            identifier: identifier@,
            items: item_contents(items@),
        },
        HeaderItem::Var { reference, code } => ItemModel::Var {
            reference: reference@,
            code: code@,
        },
        HeaderItem::Comment => ItemModel::Comment,
    }
}

/// Contents of the entries of a scope.
pub open spec fn item_contents(items: Seq<HeaderItem>) -> Seq<ItemModel>
    decreases items,
{
    if items.len() == 0 {
        Seq::empty()
    } else {
        item_contents(items.drop_last()).push(item_content(items.last()))
    }
}

/// The entries of the first scope called `name` among `items`.
pub open spec fn scope_named(items: Seq<ItemModel>, name: Seq<char>) -> Option<Seq<ItemModel>>
    decreases items.len(),
{
    if items.len() == 0 {
        None
    } else {
        match items[0] {
            ItemModel::Scope { identifier, items: inner } if identifier == name => Some(inner),
            _ => scope_named(items.drop_first(), name),
        }
    }
}

/// The code of the first variable called `name` among `items`.
pub open spec fn var_named(items: Seq<ItemModel>, name: Seq<char>) -> Option<Seq<char>>
    decreases items.len(),
{
    if items.len() == 0 {
        None
    } else {
        match items[0] {
            ItemModel::Var { reference, code } if reference == name => Some(code),
            _ => var_named(items.drop_first(), name),
        }
    }
}

/// The entries that are reached by following scope names downwards.
pub open spec fn descend(items: Seq<ItemModel>, path: Seq<Seq<char>>) -> Option<Seq<ItemModel>>
    decreases path.len(),
{
    if path.len() == 0 {
        Some(items)
    } else {
        match scope_named(items, path[0]) {
            Some(inner) => descend(inner, path.drop_first()),
            None => None,
        }
    }
}

/// The entries of the scope at `path`; the empty path names no scope.
pub open spec fn lookup_scope(items: Seq<ItemModel>, path: Seq<Seq<char>>) -> Option<
    Seq<ItemModel>,
> {
    if path.len() == 0 {
        None
    } else {
        descend(items, path)
    }
}

/// The code of the variable at `path`; the empty path names no variable.
pub open spec fn lookup_var(items: Seq<ItemModel>, path: Seq<Seq<char>>) -> Option<Seq<char>> {
    if path.len() == 0 {
        None
    } else {
        match descend(items, path.drop_last()) {
            Some(inner) => var_named(inner, path.last()),
            None => None,
        }
    }
}

/// `vcd::Parser`, which reads a dump command by command.
#[verifier::external_type_specification]
#[verifier::external_body]
#[verifier::reject_recursive_types(R)]
pub struct ExParser<R>(vcd::Parser<R>);

/// `vcd::Header`, the declarations of a dump.
#[verifier::external_type_specification]
#[verifier::external_body]
pub struct ExHeader(vcd::Header);

/// `vcd::ScopeItem`, an entry of a scope.
#[verifier::external_type_specification]
#[verifier::external_body]
pub struct ExScopeItem(vcd::ScopeItem);

/// The commands that a parser has still to hand out.
pub uninterp spec fn pending(parser: vcd::Parser<VecDeque<u8>>) -> Seq<CommandModel>;

/// The top-level entries of a header.
pub uninterp spec fn header_items(header: vcd::Header) -> Seq<ItemModel>;

/// The content of an entry of a scope.
pub uninterp spec fn item_model(item: vcd::ScopeItem) -> ItemModel;

/// What `vcd::Parser::parse_header` makes of a dump: its top-level entries, or a message.
pub uninterp spec fn vcd_header(bytes: Seq<u8>) -> Result<Seq<ItemModel>, Seq<char>>;

/// The commands that `vcd::Parser` hands out after the header of a dump.
pub uninterp spec fn vcd_body(bytes: Seq<u8>) -> Seq<CommandModel>;

/// The contents of a list of entries.
pub open spec fn item_models(items: Seq<vcd::ScopeItem>) -> Seq<ItemModel> {
    Seq::new(items.len(), |i: int| item_model(items[i]))
}

/// Calls `vcd::Parser::new` and `vcd::Parser::parse_header` on a whole dump.
///
/// Both read nothing but the bytes, so the header, the message of a failure and the commands
/// that follow the header are functions of the bytes. A command takes up at least one byte.
#[verifier::external_body]
pub(crate) fn open_trace(bytes: Vec<u8>) -> (r: Result<
    (vcd::Header, vcd::Parser<VecDeque<u8>>),
    String,
>)
    ensures
        match r {
            Ok(parts) => {
                &&& vcd_header(bytes@) == Ok::<Seq<ItemModel>, Seq<char>>(header_items(parts.0))
                &&& pending(parts.1) == vcd_body(bytes@)
                &&& pending(parts.1).len() <= bytes@.len()
            },
            Err(message) => vcd_header(bytes@) == Err::<Seq<ItemModel>, Seq<char>>(message@),
        },
{
    let mut parser = vcd::Parser::new(VecDeque::from(bytes));
    match parser.parse_header() {
        Ok(header) => Ok((header, parser)),
        Err(error) => Err(error.to_string()),
    }
}

/// Calls `next` of the iterator `vcd::Parser`.
///
/// It hands out the commands in order and none after the last. Identifier codes are taken in
/// their printed form, which no two codes share; the iterator's errors stand in the sequence of
/// commands.
#[verifier::external_body]
pub(crate) fn next_command(parser: &mut vcd::Parser<VecDeque<u8>>) -> (r: Option<Command>)
    ensures
        match r {
            Some(command) => {
                &&& pending(*old(parser)).len() > 0
                &&& command@ == pending(*old(parser))[0]
                &&& pending(*final(parser)) == pending(*old(parser)).drop_first()
            },
            None => {
                &&& pending(*old(parser)).len() == 0
                &&& pending(*final(parser)).len() == 0
            },
        },
{
    let value = |v: vcd::Value| match v {
        vcd::Value::V0 => Value::V0,
        vcd::Value::V1 => Value::V1,
        vcd::Value::X => Value::X,
        vcd::Value::Z => Value::Z,
    };
    parser.next().map(|command| match command {
        Ok(vcd::Command::Timestamp(time)) => Command::Timestamp(time),
        Ok(vcd::Command::ChangeScalar(id, v)) => Command::ChangeScalar(id.to_string(), value(v)),
        Ok(vcd::Command::ChangeVector(id, v)) => {
            Command::ChangeVector(id.to_string(), v.iter().map(value).collect())
        },
        Ok(_) => Command::Other,
        Err(error) => Command::Malformed(error.to_string()),
    })
}

/// Calls `vcd::Header::find_var` and takes the code of what it finds.
///
/// It follows the first scope of each name and takes the first variable of the last name.
#[verifier::external_body]
pub(crate) fn find_var(header: &vcd::Header, path: &Vec<String>) -> (r: Option<String>)
    ensures
        text_of(r) == lookup_var(header_items(*header), texts(path@)),
{
    header.find_var(path).map(|var| var.code.to_string())
}

/// Calls `vcd::Header::find_scope` and takes the entries of what it finds.
///
/// It follows the first scope of each name; the empty path leads nowhere.
#[verifier::external_body]
pub(crate) fn find_scope<'a>(header: &'a vcd::Header, path: &Vec<String>) -> (r: Option<
    &'a Vec<vcd::ScopeItem>,
>)
    ensures
        match r {
            Some(items) => lookup_scope(header_items(*header), texts(path@)) == Some(
                item_models(items@),
            ),
            None => lookup_scope(header_items(*header), texts(path@)) is None,
        },
{
    header.find_scope(path).map(|scope| &scope.items)
}

/// The parts of an entry of a scope.
pub enum ItemParts<'a> {
    Scope { identifier: &'a String, items: &'a Vec<vcd::ScopeItem> },
    Var { reference: &'a String, code: String },
    Comment,
}

/// Tells the variants of `vcd::ScopeItem` apart.
///
/// The fields that are handed out make up the content of the entry.
#[verifier::external_body]
pub(crate) fn item_parts<'a>(item: &'a vcd::ScopeItem) -> (r: ItemParts<'a>)
    ensures
        match r {
            ItemParts::Scope { identifier, items } => item_model(*item) == (ItemModel::Scope {
                identifier: identifier@,
                items: item_models(items@),
            }),
            ItemParts::Var { reference, code } => item_model(*item) == (ItemModel::Var {
                reference: reference@,
                code: code@,
            }),
            ItemParts::Comment => item_model(*item) == ItemModel::Comment,
        },
{
    match item {
        vcd::ScopeItem::Scope(scope) => {
            ItemParts::Scope { identifier: &scope.identifier, items: &scope.items }
        },
        vcd::ScopeItem::Var(var) => {
            ItemParts::Var { reference: &var.reference, code: var.code.to_string() }
        },
        _ => ItemParts::Comment,
    }
}

/// Copies the entries of a scope into the library's own form.
pub fn scope_items(items: &Vec<vcd::ScopeItem>) -> (r: Vec<HeaderItem>)
    ensures
        item_contents(r@) == item_models(items@),
    decreases item_models(items@),
{
    let mut out: Vec<HeaderItem> = Vec::new();
    let mut i: usize = 0;
    let ghost all = item_models(items@);
    assert(all.take(0) =~= Seq::empty());
    while i < items.len()
        invariant
            i <= items.len(),
            all == item_models(items@),
            item_contents(out@) == all.take(i as int),
        decreases items.len() - i,
    {
        let ghost before = out@;
        let item = match item_parts(&items[i]) {
            ItemParts::Scope { identifier, items: inner } => {
                assert(decreases_to!(all => all[i as int]));
                assert(decreases_to!(all[i as int] => all[i as int]->Scope_items));
                HeaderItem::Scope { identifier: identifier.clone(), items: scope_items(inner) }
            },
            ItemParts::Var { reference, code } => HeaderItem::Var {
                reference: reference.clone(),
                code,
            },
            ItemParts::Comment => HeaderItem::Comment,
        };
        assert(item_content(item) == all[i as int]);
        out.push(item);
        assert(out@.drop_last() =~= before);
        assert(all.take(i + 1) =~= all.take(i as int).push(all[i as int]));
        i = i + 1;
    }
    assert(all.take(i as int) =~= all);
    out
}

} // verus!
