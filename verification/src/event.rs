//! Log events and the log source that routes them to rules.
use vstd::prelude::*;
use crate::value::{member, Value, ValueView};

verus! {

/// The log source of a rule or of an event, in the Sigma taxonomy. A field
/// that is `None` is a wildcard.
#[derive(Debug, Clone)]
pub struct LogSource {
    pub category: Option<String>,
    pub product: Option<String>,
    pub service: Option<String>,
    pub extra: Vec<(String, String)>,
}

/// The mathematical content of a [`LogSource`]: its three axes.
pub struct LogSourceView {
    pub category: Option<Seq<char>>,
    pub product: Option<Seq<char>>,
    pub service: Option<Seq<char>>,
}

/// The text of an optional string.
pub open spec fn optional_text(s: Option<String>) -> Option<Seq<char>> {
    match s {
        Some(t) => Some(t@),
        None => None,
    }
}

impl View for LogSource {
    type V = LogSourceView;

    open spec fn view(&self) -> LogSourceView {
        LogSourceView {
            category: optional_text(self.category),
            product: optional_text(self.product),
            service: optional_text(self.service),
        }
    }
}

impl Default for LogSource {
    fn default() -> (r: LogSource)
        ensures
            r@ == (LogSourceView { category: None, product: None, service: None }),
            r.extra@.len() == 0,
    {
        LogSource { category: None, product: None, service: None, extra: Vec::new() }
    }
}

/// The text under a key of a value, where the value has a string there.
pub open spec fn text_member(v: ValueView, key: Seq<char>) -> Option<Seq<char>> {
    match member(v, key) {
        Some(ValueView::String(s)) => Some(s),
        _ => None,
    }
}

/// The text under a key of a value.
fn text_under(value: &Value, key: &str) -> (r: Option<String>)
    ensures
        optional_text(r) == text_member(value@, key@),
{
    match value.get(key) {
        Some(found) => match found.as_str() {
            Some(s) => Some(s.clone()),
            None => None,
        },
        None => None,
    }
}

impl LogSource {
    /// The log source that a value describes: the strings under its keys
    /// `category`, `product` and `service`.
    pub fn from_value(value: &Value) -> (r: LogSource)
        ensures
            r@ == (LogSourceView {
                category: text_member(value@, "category"@),
                product: text_member(value@, "product"@),
                service: text_member(value@, "service"@),
            }),
            r.extra@.len() == 0,
    {
        LogSource {
            category: text_under(value, "category"),
            product: text_under(value, "product"),
            service: text_under(value, "service"),
            extra: Vec::new(),
        }
    }

    /// A log source with the given axes.
    pub fn new(category: Option<String>, product: Option<String>, service: Option<String>) -> (r:
        LogSource)
        ensures
            r.category == category,
            r.product == product,
            r.service == service,
            r.extra@.len() == 0,
    {
        LogSource { category, product, service, extra: Vec::new() }
    }

    /// The same log source with this category.
    pub fn category(self, category: &str) -> (r: LogSource)
        ensures
            r@ == (LogSourceView { category: Some(category@), ..self@ }),
            r.extra == self.extra,
    {
        LogSource {
            category: Some(category.to_owned()),
            product: self.product,
            service: self.service,
            extra: self.extra,
        }
    }

    /// The same log source with this product.
    pub fn product(self, product: &str) -> (r: LogSource)
        ensures
            r@ == (LogSourceView { product: Some(product@), ..self@ }),
            r.extra == self.extra,
    {
        LogSource {
            category: self.category,
            product: Some(product.to_owned()),
            service: self.service,
            extra: self.extra,
        }
    }

    /// The same log source with this service.
    pub fn service(self, service: &str) -> (r: LogSource)
        ensures
            r@ == (LogSourceView { service: Some(service@), ..self@ }),
            r.extra == self.extra,
    {
        LogSource {
            category: self.category,
            product: self.product,
            service: Some(service.to_owned()),
            extra: self.extra,
        }
    }

    /// A copy of the three axes, without the extra entries.
    pub fn axes(&self) -> (r: LogSource)
        ensures
            r@ == self@,
    {
        let category = match &self.category {
            Some(c) => Some(c.clone()),
            None => None,
        };
        let product = match &self.product {
            Some(c) => Some(c.clone()),
            None => None,
        };
        let service = match &self.service {
            Some(c) => Some(c.clone()),
            None => None,
        };
        LogSource { category, product, service, extra: Vec::new() }
    }
}

/// A log event: its data, the log source that it comes from, and metadata
/// for enrichment.
#[derive(Debug)]
pub struct Event {
    pub data: Value,
    pub logsource: LogSource,
    pub metadata: Vec<(String, Value)>,
}

impl Default for Event {
    fn default() -> (r: Event)
        ensures
            r.data == Value::Null,
            r.logsource@ == (LogSourceView { category: None, product: None, service: None }),
            r.metadata@.len() == 0,
    {
        Event { data: Value::Null, logsource: LogSource::default(), metadata: Vec::new() }
    }
}

impl Event {
    /// An event with this data, from any log source.
    pub fn new(data: Value) -> (r: Event)
        ensures
            r.data == data,
            r.logsource@ == (LogSourceView { category: None, product: None, service: None }),
            r.metadata@.len() == 0,
    {
        Event { data, logsource: LogSource::default(), metadata: Vec::new() }
    }

    /// The same event from this log source.
    pub fn logsource(self, logsource: LogSource) -> (r: Event)
        ensures
            r.data == self.data,
            r.logsource == logsource,
            r.metadata == self.metadata,
    {
        Event { data: self.data, logsource, metadata: self.metadata }
    }

    /// The same event with this metadata.
    pub fn metadata(self, metadata: Vec<(String, Value)>) -> (r: Event)
        ensures
            r.data == self.data,
            r.logsource == self.logsource,
            r.metadata == metadata,
    {
        Event { data: self.data, logsource: self.logsource, metadata }
    }
}

} // verus!
