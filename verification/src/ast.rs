//! The syntax tree.
//!
//! Numbers with a fractional part are kept as the decimal text they were
//! written with (digits and one `.`), durations as whole seconds; nothing in
//! the tree is a floating-point value.

use vstd::prelude::*;
use crate::span::Span;
use crate::text::str_eq;

verus! {

/// A parsed document.
#[derive(Debug)]
pub struct Ast {
    pub root: TableBlock,
    pub schema: Option<SchemaDefinition>,
    pub source: SourceInfo,
}

/// Where the document came from.
#[derive(Debug, Clone)]
pub struct SourceInfo {
    pub path: Option<String>,
    pub content: String,
}

/// A key, bare or quoted.
#[derive(Debug, Clone, PartialEq, Eq)]
pub enum Key {
    BareKey(String),
    QuotedKey(String),
}

/// The text of a key.
pub open spec fn key_text(k: Key) -> Seq<char> {
    match k {
        Key::BareKey(s) => s@,
        Key::QuotedKey(s) => s@,
    }
}

impl Key {
    /// The text of the key, without quotes.
    pub fn as_str(&self) -> (s: &str)
        ensures
            s@ == key_text(*self),
    {
        match self {
            Key::BareKey(s) => s.as_str(),
            Key::QuotedKey(s) => s.as_str(),
        }
    }
}

/// `key = value`, with optional `#@` metadata and a trailing comment.
#[derive(Debug)]
pub struct KeyValue {
    pub key: Key,
    pub value: Value,
    pub metadata: Option<MetadataList>,
    pub comment: Option<Comment>,
    pub span: Span,
}

/// A value.
#[derive(Debug)]
pub enum Value {
    Scalar(ScalarValue),
    InlineTable(InlineTable),
    Array(ArrayValue),
    TableBlock(TableBlock),
    Expression(Expression),
}

/// `{ a = 1, b = 2 }`
#[derive(Debug)]
pub struct InlineTable {
    pub entries: Vec<KeyValue>,
    pub span: Span,
}

/// `[1, 2, 3]`
#[derive(Debug)]
pub struct ArrayValue {
    pub elements: Vec<Value>,
    pub span: Span,
}

/// `name { ... }`, or the document root (no name).
#[derive(Debug)]
pub struct TableBlock {
    pub name: Option<String>,
    pub entries: Vec<TableEntry>,
    pub span: Span,
}

/// Index of the first key-value entry named `key`, if any.
pub open spec fn first_key_value(entries: Seq<TableEntry>, key: Seq<char>) -> Option<int>
    decreases entries.len(),
{
    if entries.len() == 0 {
        None
    } else {
        match first_key_value(entries.drop_last(), key) {
            Some(i) => Some(i),
            None => match entries.last() {
                TableEntry::KeyValue(kv) => if key_text(kv.key) == key { Some(entries.len() - 1) } else { None },
                _ => None,
            },
        }
    }
}

/// The key-value entries, in order.
pub open spec fn key_value_entries(entries: Seq<TableEntry>) -> Seq<KeyValue>
    decreases entries.len(),
{
    if entries.len() == 0 {
        Seq::empty()
    } else {
        let rest = key_value_entries(entries.drop_last());
        match entries.last() {
            TableEntry::KeyValue(kv) => rest.push(kv),
            _ => rest,
        }
    }
}

impl TableBlock {
    /// The first key-value entry named `key`.
    pub fn get(&self, key: &str) -> (r: Option<&KeyValue>)
        ensures
            match first_key_value(self.entries@, key@) {
                Some(i) => r is Some && self.entries@[i] == TableEntry::KeyValue(*r->Some_0),
                None => r is None,
            },
    {
        let mut i: usize = 0;
        while i < self.entries.len()
            invariant
                i <= self.entries@.len(),
                first_key_value(self.entries@.take(i as int), key@) is None,
            decreases self.entries@.len() - i,
        {
            assert(self.entries@.take(i + 1).drop_last() == self.entries@.take(i as int));
            if let TableEntry::KeyValue(kv) = &self.entries[i] {
                if str_eq(kv.key.as_str(), key) {
                    proof { lemma_first_key_value_prefix(self.entries@, i + 1, key@); }
                    return Some(kv);
                }
            }
            i = i + 1;
        }
        proof { assert(self.entries@.take(self.entries@.len() as int) == self.entries@); }
        None
    }

    /// All key-value entries, in order.
    pub fn key_values(&self) -> (r: Vec<&KeyValue>)
        ensures
            r@.len() == key_value_entries(self.entries@).len(),
            forall|k: int| 0 <= k < r@.len() ==> *(#[trigger] r@[k]) == key_value_entries(self.entries@)[k],
    {
        let mut r: Vec<&KeyValue> = Vec::new();
        let mut i: usize = 0;
        while i < self.entries.len()
            invariant
                i <= self.entries@.len(),
                r@.len() == key_value_entries(self.entries@.take(i as int)).len(),
                forall|k: int| 0 <= k < r@.len() ==> *(#[trigger] r@[k]) == key_value_entries(self.entries@.take(i as int))[k],
            decreases self.entries@.len() - i,
        {
            assert(self.entries@.take(i + 1).drop_last() == self.entries@.take(i as int));
            if let TableEntry::KeyValue(kv) = &self.entries[i] {
                r.push(kv);
            }
            i = i + 1;
        }
        proof { assert(self.entries@.take(self.entries@.len() as int) == self.entries@); }
        r
    }
}

/// Once an entry is found in a prefix, the whole sequence finds the same one.
proof fn lemma_first_key_value_prefix(entries: Seq<TableEntry>, n: int, key: Seq<char>)
    requires
        0 < n <= entries.len(),
        first_key_value(entries.take(n), key) == Some(n - 1),
    ensures
        first_key_value(entries, key) == Some(n - 1),
    decreases entries.len(),
{
    if entries.len() > n {
        assert(entries.drop_last().take(n) == entries.take(n));
        lemma_first_key_value_prefix(entries.drop_last(), n, key);
    } else {
        assert(entries.take(n) == entries);
    }
}

/// An entry of a table block.
#[derive(Debug)]
pub enum TableEntry {
    KeyValue(KeyValue),
    TableBlock(TableBlock),
    ArrayTable(ArrayTable),
    IncludeDirective(IncludeDirective),
    Comment(Comment),
}

/// One `[[key]]` element.
#[derive(Debug)]
pub struct ArrayTable {
    pub key: Key,
    pub entries: Vec<KeyValue>,
    pub span: Span,
}

/// `@include "path" merge=strategy`
#[derive(Debug, Clone)]
pub struct IncludeDirective {
    pub path: String,
    pub merge_strategy: MergeStrategy,
    pub span: Span,
}

/// How an included file is merged.
#[derive(Debug, Clone, Copy, PartialEq, Eq, Structural)]
pub enum MergeStrategy {
    Override,
    Append,
    Merge,
    DeepMerge,
}

impl MergeStrategy {
    /// The name used in `merge=...`.
    pub fn name(&self) -> (s: &'static str)
        ensures
            s@ == merge_strategy_name(*self),
    {
        match self {
            MergeStrategy::Override => "override",
            MergeStrategy::Append => "append",
            MergeStrategy::Merge => "merge",
            MergeStrategy::DeepMerge => "deep_merge",
        }
    }
}

/// The name of each merge strategy.
pub open spec fn merge_strategy_name(m: MergeStrategy) -> Seq<char> {
    match m {
        MergeStrategy::Override => "override"@,
        MergeStrategy::Append => "append"@,
        MergeStrategy::Merge => "merge"@,
        MergeStrategy::DeepMerge => "deep_merge"@,
    }
}

/// A comment, line (`#`) or block (`/* */`).
#[derive(Debug, Clone)]
pub struct Comment {
    pub content: String,
    pub is_block: bool,
    pub span: Span,
}

/// How a comment is written back: `/*content*/` or `# content`.
pub open spec fn comment_text(c: Comment) -> Seq<char> {
    if c.is_block {
        "/*"@ + c.content@ + "*/"@
    } else {
        "# "@ + c.content@
    }
}

impl Comment {
    /// The comment as it is written back.
    pub fn render(&self) -> (s: String)
        ensures
            s@ == comment_text(*self),
    {
        let mut s = String::new();
        if self.is_block {
            s.push_str("/*");
            s.push_str(self.content.as_str());
            s.push_str("*/");
        } else {
            s.push_str("# ");
            s.push_str(self.content.as_str());
        }
        s
    }
}

/// The `#@schema { ... }` block.
#[derive(Debug)]
pub struct SchemaDefinition {
    pub version: Option<String>,
    pub description: Option<String>,
    pub strict: bool,
    pub fields: Vec<SchemaField>,
    pub span: Span,
}

/// One field of the schema.
#[derive(Debug)]
pub struct SchemaField {
    pub name: String,
    pub field_type: SchemaType,
    pub required: bool,
    pub default: Option<Value>,
    pub range: Option<RangeConstraint>,
    pub pattern: Option<String>,
    pub enum_values: Option<Vec<ScalarValue>>,
    pub desc: Option<String>,
    pub example: Option<String>,
    pub llm_hint: Option<String>,
    pub sensitive: bool,
    pub nested_fields: Vec<SchemaField>,
    pub span: Span,
}

/// A schema type.
#[derive(Debug)]
pub enum SchemaType {
    String,
    Integer,
    Float,
    Boolean,
    DateTime,
    Duration,
    Table,
    Array(Box<SchemaType>),
}

/// `range(min..max)` of a schema field.
#[derive(Debug, Clone)]
pub struct RangeConstraint {
    pub min: Option<i64>,
    pub max: Option<i64>,
}

/// A scalar value.
#[derive(Debug, Clone, PartialEq)]
pub enum ScalarValue {
    String(String),
    Number(NumberValue),
    Boolean(bool),
    DateTime(String),
    /// whole seconds
    Duration(u64),
}

/// A number: an integer, or a decimal kept as its text.
#[derive(Debug, Clone, PartialEq)]
pub enum NumberValue {
    Integer(i64),
    /// decimal text such as `0.5`: digits and one `.`
    Float(String),
}

/// `+ - * /` in expressions.
#[derive(Debug, Clone, Copy, PartialEq, Eq, Structural)]
pub enum BinaryOperator {
    Add,
    Subtract,
    Multiply,
    Divide,
}

/// Duration units.
#[derive(Debug, Clone, Copy, PartialEq, Eq, Structural)]
pub enum TimeUnit {
    Seconds,
    Minutes,
    Hours,
    Days,
}

/// Seconds per unit.
pub open spec fn unit_seconds(u: TimeUnit) -> nat {
    match u {
        TimeUnit::Seconds => 1,
        TimeUnit::Minutes => 60,
        TimeUnit::Hours => 3600,
        TimeUnit::Days => 86400,
    }
}

/// The suffix of each unit: `s`, `m`, `h`, `d`.
pub open spec fn unit_symbol(u: TimeUnit) -> Seq<char> {
    match u {
        TimeUnit::Seconds => "s"@,
        TimeUnit::Minutes => "m"@,
        TimeUnit::Hours => "h"@,
        TimeUnit::Days => "d"@,
    }
}

impl TimeUnit {
    /// The unit's suffix.
    pub fn symbol(&self) -> (s: &'static str)
        ensures
            s@ == unit_symbol(*self),
    {
        match self {
            TimeUnit::Seconds => "s",
            TimeUnit::Minutes => "m",
            TimeUnit::Hours => "h",
            TimeUnit::Days => "d",
        }
    }

    /// Seconds in one unit.
    pub fn to_seconds(&self) -> (n: u64)
        ensures
            n == unit_seconds(*self),
    {
        match self {
            TimeUnit::Seconds => 1,
            TimeUnit::Minutes => 60,
            TimeUnit::Hours => 3600,
            TimeUnit::Days => 86400,
        }
    }
}

/// An expression as written; it is evaluated by the tools that need its value.
#[derive(Debug)]
pub enum Expression {
    BinaryOp {
        left: Box<Expression>,
        operator: BinaryOperator,
        right: Box<Expression>,
    },
    Literal(ScalarValue),
    /// a number with a unit; `value` is the decimal text
    UnitValue {
        value: String,
        unit: TimeUnit,
    },
}

/// Why an expression has no value.
#[derive(Debug, Clone, Copy, PartialEq, Eq, Structural)]
pub enum ExpressionError {
    DivisionByZero,
    TypeMismatch,
}

/// A standard `#@` metadata item.
#[derive(Debug, Clone, PartialEq)]
pub enum StandardMetadata {
    Sensitive,
    Required,
    Deprecated { message: Option<String> },
    Description { text: String },
    Example { value: String },
    TypeHint { hint: String },
    ItemType { item_type: String },
    /// bounds as written
    Range { min: String, max: String },
}

/// The value of a custom metadata item.
#[derive(Debug, Clone, PartialEq)]
pub enum MetadataValue {
    String(String),
    /// as written
    Number(String),
    Range { min: String, max: String },
}

/// A metadata item.
#[derive(Debug, Clone)]
pub enum MetadataItem {
    Standard(StandardMetadata),
    Custom { key: String, value: Option<MetadataValue> },
}

/// The `#@ ...` list after a value.
#[derive(Debug, Clone)]
pub struct MetadataList {
    pub items: Vec<MetadataItem>,
    pub span: Span,
}

impl MetadataList {
    /// Whether `sensitive` is present.
    pub fn has_sensitive(&self) -> (b: bool)
        ensures
            b == exists|i: int| 0 <= i < self.items@.len() && (#[trigger] self.items@[i]) == MetadataItem::Standard(StandardMetadata::Sensitive),
    {
        let mut i: usize = 0;
        while i < self.items.len()
            invariant
                i <= self.items@.len(),
                forall|j: int| 0 <= j < i ==> (#[trigger] self.items@[j]) != MetadataItem::Standard(StandardMetadata::Sensitive),
            decreases self.items@.len() - i,
        {
            if let MetadataItem::Standard(StandardMetadata::Sensitive) = &self.items[i] {
                return true;
            }
            i = i + 1;
        }
        false
    }

    /// Whether `required` is present.
    pub fn has_required(&self) -> (b: bool)
        ensures
            b == exists|i: int| 0 <= i < self.items@.len() && (#[trigger] self.items@[i]) == MetadataItem::Standard(StandardMetadata::Required),
    {
        let mut i: usize = 0;
        while i < self.items.len()
            invariant
                i <= self.items@.len(),
                forall|j: int| 0 <= j < i ==> (#[trigger] self.items@[j]) != MetadataItem::Standard(StandardMetadata::Required),
            decreases self.items@.len() - i,
        {
            if let MetadataItem::Standard(StandardMetadata::Required) = &self.items[i] {
                return true;
            }
            i = i + 1;
        }
        false
    }

    /// The bounds of the first `range(...)` item, as written.
    pub fn get_range(&self) -> (r: Option<(String, String)>)
        ensures
            match r {
                Some((lo, hi)) => exists|i: int| 0 <= i < self.items@.len()
                    && ((#[trigger] self.items@[i]) matches MetadataItem::Standard(StandardMetadata::Range { min, max }) && min@ == lo@ && max@ == hi@)
                    && forall|j: int| 0 <= j < i ==> !((#[trigger] self.items@[j]) matches MetadataItem::Standard(StandardMetadata::Range { .. })),
                None => forall|j: int| 0 <= j < self.items@.len() ==> !((#[trigger] self.items@[j]) matches MetadataItem::Standard(StandardMetadata::Range { .. })),
            },
    {
        let mut i: usize = 0;
        while i < self.items.len()
            invariant
                i <= self.items@.len(),
                forall|j: int| 0 <= j < i ==> !((#[trigger] self.items@[j]) matches MetadataItem::Standard(StandardMetadata::Range { .. })),
            decreases self.items@.len() - i,
        {
            if let MetadataItem::Standard(StandardMetadata::Range { min, max }) = &self.items[i] {
                return Some((crate::text::to_owned_string(min.as_str()), crate::text::to_owned_string(max.as_str())));
            }
            i = i + 1;
        }
        None
    }

    /// The hint of the first `type_hint` item.
    pub fn get_type_hint(&self) -> (r: Option<&str>)
        ensures
            match r {
                Some(h) => exists|i: int| 0 <= i < self.items@.len()
                    && ((#[trigger] self.items@[i]) matches MetadataItem::Standard(StandardMetadata::TypeHint { hint }) && hint@ == h@)
                    && forall|j: int| 0 <= j < i ==> !((#[trigger] self.items@[j]) matches MetadataItem::Standard(StandardMetadata::TypeHint { .. })),
                None => forall|j: int| 0 <= j < self.items@.len() ==> !((#[trigger] self.items@[j]) matches MetadataItem::Standard(StandardMetadata::TypeHint { .. })),
            },
    {
        let mut i: usize = 0;
        while i < self.items.len()
            invariant
                i <= self.items@.len(),
                forall|j: int| 0 <= j < i ==> !((#[trigger] self.items@[j]) matches MetadataItem::Standard(StandardMetadata::TypeHint { .. })),
            decreases self.items@.len() - i,
        {
            if let MetadataItem::Standard(StandardMetadata::TypeHint { hint }) = &self.items[i] {
                return Some(hint.as_str());
            }
            i = i + 1;
        }
        None
    }
}

} // verus!
