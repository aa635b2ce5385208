//! TOML values, and reading them from the text of a document.
use vstd::prelude::*;

use crate::text;

verus! {

/// A TOML value.
#[derive(Debug, PartialEq)]
pub enum ConfigValue {
    Text(String),
    Integer(i64),
    /// A floating-point number, by its IEEE 754 bits.
    Float(u64),
    Boolean(bool),
    Datetime(toml::value::Datetime),
    Array(Vec<ConfigValue>),
    Table(ConfigTable),
}

/// A TOML table: its entries, in the order in which they are visited.
#[derive(Debug, PartialEq)]
pub struct ConfigTable {
    pub entries: Vec<(String, ConfigValue)>,
}

/// What a TOML value holds.
pub enum ValueView {
    Text(Seq<char>),
    Integer(i64),
    Float(u64),
    Boolean(bool),
    Datetime(toml::value::Datetime),
    Array(Seq<ValueView>),
    Table(Seq<(Seq<char>, ValueView)>),
}

impl ConfigValue {
    /// What the value holds.
    pub open spec fn view(&self) -> ValueView
        decreases self,
    {
        match self {
            ConfigValue::Text(text) => ValueView::Text(text@),
            ConfigValue::Integer(number) => ValueView::Integer(*number),
            ConfigValue::Float(bits) => ValueView::Float(*bits),
            ConfigValue::Boolean(truth) => ValueView::Boolean(*truth),
            ConfigValue::Datetime(moment) => ValueView::Datetime(*moment),
            ConfigValue::Array(items) => ValueView::Array(
                Seq::new(
                    items@.len(),
                    |i: int|
                        if 0 <= i < items@.len() {
                            items@[i].view()
                        } else {
                            arbitrary()
                        },
                ),
            ),
            ConfigValue::Table(table) => ValueView::Table(table.view()),
        }
    }
}

impl ValueView {
    /// In each table of the value the keys stand in increasing order, so that
    /// no key occurs twice.
    pub open spec fn well_formed(self) -> bool
        decreases self,
    {
        match self {
            ValueView::Array(items) => forall|i: int|
                0 <= i < items.len() ==> (#[trigger] items[i]).well_formed(),
            ValueView::Table(entries) => keys_increase(entries) && forall|i: int|
                0 <= i < entries.len() ==> (#[trigger] entries[i]).1.well_formed(),
            _ => true,
        }
    }
}

/// The keys of the entries stand in increasing order.
pub open spec fn keys_increase(entries: Seq<(Seq<char>, ValueView)>) -> bool {
    forall|i: int, j: int|
        #![trigger entries[i], entries[j]]
        0 <= i < j < entries.len() ==> text::precedes(entries[i].0, entries[j].0)
}

/// Every character of the text stands in the source.
pub open spec fn is_made_of(text: Seq<char>, source: Seq<char>) -> bool {
    forall|i: int| 0 <= i < text.len() ==> source.contains(#[trigger] text[i])
}

/// Every character of the value's texts and keys stands in the source.
pub open spec fn draws_on(value: ValueView, source: Seq<char>) -> bool
    decreases value,
{
    match value {
        ValueView::Text(text) => is_made_of(text, source),
        ValueView::Array(items) => forall|i: int|
            0 <= i < items.len() ==> draws_on(#[trigger] items[i], source),
        ValueView::Table(entries) => forall|i: int|
            0 <= i < entries.len() ==> is_made_of((#[trigger] entries[i]).0, source) && draws_on(
                entries[i].1,
                source,
            ),
        _ => true,
    }
}

impl ConfigTable {
    /// The keys with what their values hold.
    pub open spec fn view(&self) -> Seq<(Seq<char>, ValueView)>
        decreases self,
    {
        Seq::new(
            self.entries@.len(),
            |i: int|
                if 0 <= i < self.entries@.len() {
                    (self.entries@[i].0@, self.entries@[i].1.view())
                } else {
                    arbitrary()
                },
        )
    }
}

/// A date and time of the `toml` crate, carried through unread.
#[verifier::external_type_specification]
#[verifier::external_body]
pub struct ExDatetime(toml::value::Datetime);

/// A value of the `toml` crate.
#[verifier::external_type_specification]
#[verifier::external_body]
pub struct ExTomlValue(toml::Value);

/// An error of the `toml` crate, carried through unread.
#[verifier::external_type_specification]
#[verifier::external_body]
pub struct ExTomlError(toml::de::Error);

/// What a value of the `toml` crate holds.
pub uninterp spec fn toml_contents(value: toml::Value) -> ValueView;

/// What the `toml` crate reads from the text of a document.
pub uninterp spec fn toml_document(text: Seq<char>) -> Result<ValueView, toml::de::Error>;

/// A value of the `toml` crate with its outermost layer taken apart.
enum Layer {
    Text(String),
    Integer(i64),
    Float(u64),
    Boolean(bool),
    Datetime(toml::value::Datetime),
    Array(Vec<toml::Value>),
    Table(Vec<(String, toml::Value)>),
}

impl Layer {
    /// What the value that was taken apart holds.
    spec fn contents(self) -> ValueView {
        match self {
            Layer::Text(text) => ValueView::Text(text@),
            Layer::Integer(number) => ValueView::Integer(number),
            Layer::Float(bits) => ValueView::Float(bits),
            Layer::Boolean(truth) => ValueView::Boolean(truth),
            Layer::Datetime(moment) => ValueView::Datetime(moment),
            Layer::Array(items) => ValueView::Array(
                Seq::new(items@.len(), |i: int| toml_contents(items@[i])),
            ),
            Layer::Table(entries) => ValueView::Table(
                Seq::new(
                    entries@.len(),
                    |i: int| (entries@[i].0@, toml_contents(entries@[i].1)),
                ),
            ),
        }
    }
}

/// A layer holds its payload as it is.
proof fn lemma_layers_hold_their_payload(
    text: String,
    number: i64,
    bits: u64,
    truth: bool,
    moment: toml::value::Datetime,
    items: Vec<toml::Value>,
    entries: Vec<(String, toml::Value)>,
    index: int,
)
    ensures
        Layer::Text(text).contents() == ValueView::Text(text@),
        Layer::Integer(number).contents() == ValueView::Integer(number),
        Layer::Float(bits).contents() == ValueView::Float(bits),
        Layer::Boolean(truth).contents() == ValueView::Boolean(truth),
        Layer::Datetime(moment).contents() == ValueView::Datetime(moment),
        Layer::Array(items).contents() matches ValueView::Array(views) && views.len()
            == items@.len() && (0 <= index < views.len() ==> views[index] == toml_contents(
            items@[index],
        )),
        Layer::Table(entries).contents() matches ValueView::Table(views) && views.len()
            == entries@.len() && (0 <= index < views.len() ==> views[index] == (
            entries@[index].0@,
            toml_contents(entries@[index].1),
        )),
{
}

/// Reads a TOML document: `toml::from_str` into a `toml::Table`, handed on as
/// the value of that table.
///
/// Trusted: reading depends on the text alone, so its outcome has a name, and
/// what is read is a table. Only an escape, which a backslash starts, puts a
/// character into a text or a key that the document does not hold.
#[verifier::external_body]
fn parse_toml(text: &str) -> (result: Result<toml::Value, toml::de::Error>)
    ensures
        match result {
            Ok(value) => toml_document(text@) == Ok::<ValueView, toml::de::Error>(
                toml_contents(value),
            ) && toml_contents(value) is Table && (!text@.contains('\\') ==> draws_on(
                toml_contents(value),
                text@,
            )),
            Err(error) => toml_document(text@) == Err::<ValueView, toml::de::Error>(error),
        },
{
    toml::from_str::<toml::Table>(text).map(toml::Value::Table)
}

/// Takes the outermost layer of a `toml::Value` apart.
///
/// Trusted: each variant gives the layer of its kind with the same payload, an
/// array its items in order, and a table its entries in the order in which
/// `toml::Table` visits them, which is that of the keys: each key once, and
/// each before those that it precedes. That order rests on the crate's feature
/// `preserve_order` being off, as it is by default: with it the table would
/// keep the order of the document.
#[verifier::external_body]
fn take_apart(value: toml::Value) -> (layer: Layer)
    ensures
        layer.contents() == toml_contents(value),
        layer matches Layer::Table(entries) ==> forall|i: int, j: int|
            #![trigger entries@[i], entries@[j]]
            0 <= i < j < entries@.len() ==> text::precedes(entries@[i].0@, entries@[j].0@),
{
    match value {
        toml::Value::String(text) => Layer::Text(text),
        toml::Value::Integer(number) => Layer::Integer(number),
        toml::Value::Float(number) => Layer::Float(number.to_bits()),
        toml::Value::Boolean(truth) => Layer::Boolean(truth),
        toml::Value::Datetime(moment) => Layer::Datetime(moment),
        toml::Value::Array(items) => Layer::Array(items),
        toml::Value::Table(table) => Layer::Table(table.into_iter().collect()),
    }
}

/// Reads a value of the `toml` crate, layer by layer.
fn read(value: toml::Value) -> (result: ConfigValue)
    ensures
        result@ == toml_contents(value),
        result@.well_formed(),
    decreases toml_contents(value),
{
    match take_apart(value) {
        Layer::Text(text) => ConfigValue::Text(text),
        Layer::Integer(number) => ConfigValue::Integer(number),
        Layer::Float(bits) => ConfigValue::Float(bits),
        Layer::Boolean(truth) => ConfigValue::Boolean(truth),
        Layer::Datetime(moment) => ConfigValue::Datetime(moment),
        Layer::Array(items) => {
            let ghost all = items@;
            let ghost whole = toml_contents(value);
            let mut read_items: Vec<ConfigValue> = Vec::new();
            for item in remaining: items
                invariant
                    remaining.seq() == all,
                    whole == toml_contents(value),
                    whole == ValueView::Array(
                        Seq::new(all.len(), |i: int| toml_contents(all[i])),
                    ),
                    read_items@.len() == remaining.index(),
                    forall|i: int|
                        0 <= i < read_items@.len() ==> (#[trigger] read_items@[i])@
                            == toml_contents(all[i]) && read_items@[i]@.well_formed(),
            {
                assert(decreases_to!(whole => whole->Array_0[read_items@.len() as int]));
                read_items.push(read(item));
            }
            let result = ConfigValue::Array(read_items);
            assert(result@->Array_0 =~= whole->Array_0);
            result
        },
        Layer::Table(entries) => {
            let ghost all = entries@;
            let ghost whole = toml_contents(value);
            let mut read_entries: Vec<(String, ConfigValue)> = Vec::new();
            for entry in remaining: entries
                invariant
                    remaining.seq() == all,
                    whole == toml_contents(value),
                    whole == ValueView::Table(
                        Seq::new(all.len(), |i: int| (all[i].0@, toml_contents(all[i].1))),
                    ),
                    read_entries@.len() == remaining.index(),
                    forall|i: int|
                        0 <= i < read_entries@.len() ==> (#[trigger] read_entries@[i]).0@
                            == all[i].0@ && read_entries@[i].1@ == toml_contents(all[i].1)
                            && read_entries@[i].1@.well_formed(),
            {
                let (key, item) = entry;
                assert(decreases_to!(whole => whole->Table_0[read_entries@.len() as int]));
                assert(decreases_to!(whole => whole->Table_0[read_entries@.len() as int].1));
                read_entries.push((key, read(item)));
            }
            let table = ConfigTable { entries: read_entries };
            assert(table@ =~= whole->Table_0);
            ConfigValue::Table(table)
        },
    }
}

/// Reads a TOML document.
pub fn read_document(text: &str) -> (result: Result<ConfigTable, toml::de::Error>)
    ensures
        match result {
            Ok(table) => toml_document(text@) == Ok::<ValueView, toml::de::Error>(
                ValueView::Table(table@),
            ) && ValueView::Table(table@).well_formed() && (!text@.contains('\\') ==> draws_on(
                ValueView::Table(table@),
                text@,
            )),
            Err(error) => toml_document(text@) == Err::<ValueView, toml::de::Error>(error),
        },
{
    match parse_toml(text) {
        Ok(value) => match read(value) {
            ConfigValue::Table(table) => Ok(table),
            _ => vstd::pervasive::unreached(),
        },
        Err(error) => Err(error),
    }
}

impl Clone for ConfigValue {
    fn clone(&self) -> (result: Self)
        ensures
            result@ == self@,
        decreases self,
    {
        match self {
            ConfigValue::Text(text) => ConfigValue::Text(text.clone()),
            ConfigValue::Integer(number) => ConfigValue::Integer(*number),
            ConfigValue::Float(bits) => ConfigValue::Float(*bits),
            ConfigValue::Boolean(truth) => ConfigValue::Boolean(*truth),
            ConfigValue::Datetime(moment) => ConfigValue::Datetime(*moment),
            ConfigValue::Array(items) => {
                let mut copies: Vec<ConfigValue> = Vec::new();
                while copies.len() < items.len()
                    invariant
                        self matches ConfigValue::Array(own) && own == items,
                        copies@.len() <= items@.len(),
                        forall|i: int|
                            0 <= i < copies@.len() ==> (#[trigger] copies@[i])@ == items@[i]@,
                    decreases items@.len() - copies@.len(),
                {
                    copies.push(items[copies.len()].clone());
                }
                let result = ConfigValue::Array(copies);
                assert(result@->Array_0 =~= self@->Array_0);
                result
            },
            ConfigValue::Table(table) => ConfigValue::Table(table.clone()),
        }
    }
}

impl Clone for ConfigTable {
    fn clone(&self) -> (result: Self)
        ensures
            result@ == self@,
        decreases self,
    {
        let mut copies: Vec<(String, ConfigValue)> = Vec::new();
        while copies.len() < self.entries.len()
            invariant
                copies@.len() <= self.entries@.len(),
                forall|i: int|
                    0 <= i < copies@.len() ==> (#[trigger] copies@[i]).0@ == self.entries@[i].0@
                        && copies@[i].1@ == self.entries@[i].1@,
            decreases self.entries@.len() - copies@.len(),
        {
            let entry = &self.entries[copies.len()];
            copies.push((entry.0.clone(), entry.1.clone()));
        }
        let result = ConfigTable { entries: copies };
        assert(result@ =~= self@);
        result
    }
}

} // verus!
