//! The settings file written beside an index (`<path>.meta`, JSON): the names
//! under which the distance metric and the quantization type are stored, and
//! the settings read back from the file's fields.
use vstd::prelude::*;
use crate::spann::index::{DistanceMetric, QuantizationType};

verus! {

/// The fields of a settings file that the index reads, each `None` when it is
/// absent or of another JSON type: the metric and quantization names
/// (strings), four counts (unsigned integers) and two flags (booleans).
pub struct MetaFields {
    pub metric: Option<String>,
    pub quantization: Option<String>,
    pub replica_count: Option<u64>,
    pub posting_vector_limit: Option<u64>,
    pub num_heads_to_search: Option<u64>,
    pub dim: Option<u64>,
    pub enable_compression: Option<bool>,
    pub enable_delta: Option<bool>,
}

/// Settings of an index as read from its settings file.
#[derive(Clone, Copy, PartialEq, Eq, Structural, Debug)]
pub struct IndexMeta {
    pub metric: DistanceMetric,
    pub quantization: QuantizationType,
    pub replica_count: usize,
    pub posting_vector_limit: usize,
    pub num_heads_to_search: usize,
    pub dim: usize,
    pub enable_compression: bool,
    pub enable_delta: bool,
}

/// Why settings could not be read.
#[derive(Clone, Copy, PartialEq, Eq, Structural, Debug)]
pub enum MetaError {
    /// The text is not JSON.
    Json,
    /// A field the index needs is missing or of the wrong type.
    Missing,
}

/// Whether `serde_json::from_str` parses `text` into a `serde_json::Value`.
pub uninterp spec fn json_parses(text: Seq<char>) -> bool;

/// The string that `Value::get(key)` then `as_str` finds in the value
/// `serde_json::from_str` parses from `text`; `None` when the text is not
/// JSON, the key is absent, or its value is not a string.
pub uninterp spec fn json_str_field(text: Seq<char>, key: Seq<char>) -> Option<Seq<char>>;

/// The same with `as_u64`: the key's value when it is an unsigned integer
/// that fits in 64 bits.
pub uninterp spec fn json_u64_field(text: Seq<char>, key: Seq<char>) -> Option<u64>;

/// The same with `as_bool`: the key's value when it is a boolean.
pub uninterp spec fn json_bool_field(text: Seq<char>, key: Seq<char>) -> Option<bool>;

/// Calls `serde_json::from_str` into a `serde_json::Value`. Claims: the
/// result is whether it parsed.
#[verifier::external_body]
fn json_is_valid(text: &str) -> (r: bool)
    ensures
        r == json_parses(text@),
{
    serde_json::from_str::<serde_json::Value>(text).is_ok()
}

/// Parses `text` with `serde_json::from_str` into a `serde_json::Value`, then
/// calls `get(key)` and `as_str`. Claims: the result is the named field.
#[verifier::external_body]
fn json_str(text: &str, key: &str) -> (r: Option<String>)
    ensures
        opt_view(r) == json_str_field(text@, key@),
{
    let v: serde_json::Value = serde_json::from_str(text).ok()?;
    v.get(key).and_then(|x| x.as_str()).map(|x| x.to_string())
}

/// Parses `text` with `serde_json::from_str` into a `serde_json::Value`, then
/// calls `get(key)` and `as_u64`. Claims: the result is the named field.
#[verifier::external_body]
fn json_u64(text: &str, key: &str) -> (r: Option<u64>)
    ensures
        r == json_u64_field(text@, key@),
{
    let v: serde_json::Value = serde_json::from_str(text).ok()?;
    v.get(key).and_then(|x| x.as_u64())
}

/// Parses `text` with `serde_json::from_str` into a `serde_json::Value`, then
/// calls `get(key)` and `as_bool`. Claims: the result is the named field.
#[verifier::external_body]
fn json_bool(text: &str, key: &str) -> (r: Option<bool>)
    ensures
        r == json_bool_field(text@, key@),
{
    let v: serde_json::Value = serde_json::from_str(text).ok()?;
    v.get(key).and_then(|x| x.as_bool())
}

/// The characters of an optional string.
pub open spec fn opt_view(o: Option<String>) -> Option<Seq<char>> {
    match o {
        Some(s) => Some(s@),
        None => None,
    }
}

/// Reads the fields the index needs from the text of a settings file, under
/// the keys `metric`, `quantization`, `replica_count`,
/// `posting_vector_limit`, `num_heads_to_search`, `dim`,
/// `enable_compression` and `enable_delta`; `None` when the text is not JSON.
pub fn meta_fields(text: &str) -> (r: Option<MetaFields>)
    ensures
        r is None <==> !json_parses(text@),
        r matches Some(f) ==> {
            &&& opt_view(f.metric) == json_str_field(text@, "metric"@)
            &&& opt_view(f.quantization) == json_str_field(text@, "quantization"@)
            &&& f.replica_count == json_u64_field(text@, "replica_count"@)
            &&& f.posting_vector_limit == json_u64_field(text@, "posting_vector_limit"@)
            &&& f.num_heads_to_search == json_u64_field(text@, "num_heads_to_search"@)
            &&& f.dim == json_u64_field(text@, "dim"@)
            &&& f.enable_compression == json_bool_field(text@, "enable_compression"@)
            &&& f.enable_delta == json_bool_field(text@, "enable_delta"@)
        },
{
    if !json_is_valid(text) {
        return None;
    }
    Some(
        MetaFields {
            metric: json_str(text, "metric"),
            quantization: json_str(text, "quantization"),
            replica_count: json_u64(text, "replica_count"),
            posting_vector_limit: json_u64(text, "posting_vector_limit"),
            num_heads_to_search: json_u64(text, "num_heads_to_search"),
            dim: json_u64(text, "dim"),
            enable_compression: json_bool(text, "enable_compression"),
            enable_delta: json_bool(text, "enable_delta"),
        },
    )
}

/// Name under which a metric is stored.
pub open spec fn metric_name_spec(m: DistanceMetric) -> Seq<char> {
    match m {
        DistanceMetric::L2 => "L2"@,
        DistanceMetric::InnerProduct => "InnerProduct"@,
    }
}

/// Name under which a quantization type is stored.
pub open spec fn quantization_name_spec(q: QuantizationType) -> Seq<char> {
    match q {
        QuantizationType::Full => "None"@,
        QuantizationType::OneBit => "OneBit"@,
        QuantizationType::TwoBit => "TwoBit"@,
        QuantizationType::FourBit => "FourBit"@,
    }
}

/// The metric a stored name stands for: `InnerProduct` for "InnerProduct",
/// `L2` for any other name.
pub open spec fn metric_from_name(s: Seq<char>) -> DistanceMetric {
    if s == "InnerProduct"@ {
        DistanceMetric::InnerProduct
    } else {
        DistanceMetric::L2
    }
}

/// The quantization type a stored name stands for: the bit types for
/// "OneBit", "TwoBit" and "FourBit", full precision for any other name.
pub open spec fn quantization_from_name(s: Seq<char>) -> QuantizationType {
    if s == "OneBit"@ {
        QuantizationType::OneBit
    } else if s == "TwoBit"@ {
        QuantizationType::TwoBit
    } else if s == "FourBit"@ {
        QuantizationType::FourBit
    } else {
        QuantizationType::Full
    }
}

/// The settings that the fields give: the metric and quantization names
/// mapped as above, the counts and `dim` truncated to `usize`, `dim` taken
/// from `default_dim` when absent, and absent flags read as `false`. A missing
/// name or count gives `Missing`.
pub open spec fn meta_from_fields(f: MetaFields, default_dim: u64) -> Result<IndexMeta, MetaError> {
    meta_from_values(
        opt_view(f.metric),
        opt_view(f.quantization),
        f.replica_count,
        f.posting_vector_limit,
        f.num_heads_to_search,
        f.dim,
        f.enable_compression,
        f.enable_delta,
        default_dim,
    )
}

/// The settings that field values give (see `meta_from_fields`).
pub open spec fn meta_from_values(
    metric: Option<Seq<char>>,
    quantization: Option<Seq<char>>,
    replica_count: Option<u64>,
    posting_vector_limit: Option<u64>,
    num_heads_to_search: Option<u64>,
    dim: Option<u64>,
    enable_compression: Option<bool>,
    enable_delta: Option<bool>,
    default_dim: u64,
) -> Result<IndexMeta, MetaError> {
    if metric is None || quantization is None || replica_count is None || posting_vector_limit is None
        || num_heads_to_search is None {
        Err(MetaError::Missing)
    } else {
        Ok(
            IndexMeta {
                metric: metric_from_name(metric->Some_0),
                quantization: quantization_from_name(quantization->Some_0),
                replica_count: replica_count->Some_0 as usize,
                posting_vector_limit: posting_vector_limit->Some_0 as usize,
                num_heads_to_search: num_heads_to_search->Some_0 as usize,
                dim: (match dim {
                    Some(d) => d,
                    None => default_dim,
                }) as usize,
                enable_compression: enable_compression == Some(true),
                enable_delta: enable_delta == Some(true),
            },
        )
    }
}

/// The settings that the text of a settings file gives: `Json` when it is
/// not JSON, otherwise the settings its fields give.
pub open spec fn meta_from_text(text: Seq<char>, default_dim: u64) -> Result<IndexMeta, MetaError> {
    if !json_parses(text) {
        Err(MetaError::Json)
    } else {
        meta_from_values(
            json_str_field(text, "metric"@),
            json_str_field(text, "quantization"@),
            json_u64_field(text, "replica_count"@),
            json_u64_field(text, "posting_vector_limit"@),
            json_u64_field(text, "num_heads_to_search"@),
            json_u64_field(text, "dim"@),
            json_bool_field(text, "enable_compression"@),
            json_bool_field(text, "enable_delta"@),
            default_dim,
        )
    }
}

/// Whether `s` holds exactly the characters of `lit`.
fn same_text(s: &String, lit: &str) -> (r: bool)
    ensures
        r == (s@ == lit@),
{
    let t = String::from_str(lit);
    *s == t
}

/// The metric stored under `s`.
pub fn metric_from_str(s: &String) -> (m: DistanceMetric)
    ensures
        m == metric_from_name(s@),
{
    if same_text(s, "InnerProduct") {
        DistanceMetric::InnerProduct
    } else {
        DistanceMetric::L2
    }
}

/// The quantization type stored under `s`.
pub fn quantization_from_str(s: &String) -> (q: QuantizationType)
    ensures
        q == quantization_from_name(s@),
{
    if same_text(s, "OneBit") {
        QuantizationType::OneBit
    } else if same_text(s, "TwoBit") {
        QuantizationType::TwoBit
    } else if same_text(s, "FourBit") {
        QuantizationType::FourBit
    } else {
        QuantizationType::Full
    }
}

/// The name under which `m` is stored.
pub fn metric_name(m: DistanceMetric) -> (s: &'static str)
    ensures
        s@ == metric_name_spec(m),
{
    match m {
        DistanceMetric::L2 => "L2",
        DistanceMetric::InnerProduct => "InnerProduct",
    }
}

/// The name under which `q` is stored.
pub fn quantization_name(q: QuantizationType) -> (s: &'static str)
    ensures
        s@ == quantization_name_spec(q),
{
    match q {
        QuantizationType::Full => "None",
        QuantizationType::OneBit => "OneBit",
        QuantizationType::TwoBit => "TwoBit",
        QuantizationType::FourBit => "FourBit",
    }
}

/// The settings that the fields `f` give (see `meta_from_fields`).
pub fn index_meta_from_fields(f: &MetaFields, default_dim: u64) -> (r: Result<IndexMeta, MetaError>)
    ensures
        r == meta_from_fields(*f, default_dim),
{
    let metric = match &f.metric {
        Some(s) => metric_from_str(s),
        None => return Err(MetaError::Missing),
    };
    let quantization = match &f.quantization {
        Some(s) => quantization_from_str(s),
        None => return Err(MetaError::Missing),
    };
    let replica_count = match f.replica_count {
        Some(x) => x as usize,
        None => return Err(MetaError::Missing),
    };
    let posting_vector_limit = match f.posting_vector_limit {
        Some(x) => x as usize,
        None => return Err(MetaError::Missing),
    };
    let num_heads_to_search = match f.num_heads_to_search {
        Some(x) => x as usize,
        None => return Err(MetaError::Missing),
    };
    let dim = match f.dim {
        Some(d) => d as usize,
        None => default_dim as usize,
    };
    let enable_compression = match f.enable_compression {
        Some(b) => b,
        None => false,
    };
    let enable_delta = match f.enable_delta {
        Some(b) => b,
        None => false,
    };
    Ok(
        IndexMeta {
            metric,
            quantization,
            replica_count,
            posting_vector_limit,
            num_heads_to_search,
            dim,
            enable_compression,
            enable_delta,
        },
    )
}

/// Reads the settings from the text of a settings file: `Json` when the text
/// is not JSON, otherwise the settings its fields give, with `dim` taken from
/// `default_dim` when the file has none.
pub fn parse_index_meta(text: &str, default_dim: u64) -> (r: Result<IndexMeta, MetaError>)
    ensures
        r == meta_from_text(text@, default_dim),
{
    match meta_fields(text) {
        None => Err(MetaError::Json),
        Some(f) => index_meta_from_fields(&f, default_dim),
    }
}

/// The fields to store for settings `m`: the names of its metric and
/// quantization type, its counts, `dim` and flags. Read back, they give `m`.
pub fn meta_fields_of(m: &IndexMeta) -> (f: MetaFields)
    ensures
        f.metric matches Some(s) && s@ == metric_name_spec(m.metric),
        f.quantization matches Some(s) && s@ == quantization_name_spec(m.quantization),
        f.replica_count == Some(m.replica_count as u64),
        f.posting_vector_limit == Some(m.posting_vector_limit as u64),
        f.num_heads_to_search == Some(m.num_heads_to_search as u64),
        f.dim == Some(m.dim as u64),
        f.enable_compression == Some(m.enable_compression),
        f.enable_delta == Some(m.enable_delta),
        forall|d: u64| #[trigger] meta_from_fields(f, d) == Ok::<IndexMeta, MetaError>(*m),
{
    let f = MetaFields {
        metric: Some(String::from_str(metric_name(m.metric))),
        quantization: Some(String::from_str(quantization_name(m.quantization))),
        replica_count: Some(m.replica_count as u64),
        posting_vector_limit: Some(m.posting_vector_limit as u64),
        num_heads_to_search: Some(m.num_heads_to_search as u64),
        dim: Some(m.dim as u64),
        enable_compression: Some(m.enable_compression),
        enable_delta: Some(m.enable_delta),
    };
    proof {
        lemma_names_roundtrip(m.metric, m.quantization);
        assert forall|d: u64| #[trigger] meta_from_fields(f, d) == Ok::<IndexMeta, MetaError>(*m) by {
            assert(m.enable_compression == true || m.enable_compression == false);
        }
    }
    f
}

/// Reading back the stored names gives the metric and the quantization type
/// that were written.
pub proof fn lemma_names_roundtrip(m: DistanceMetric, q: QuantizationType)
    ensures
        metric_from_name(metric_name_spec(m)) == m,
        quantization_from_name(quantization_name_spec(q)) == q,
{
    reveal_strlit("L2");
    reveal_strlit("InnerProduct");
    reveal_strlit("None");
    reveal_strlit("OneBit");
    reveal_strlit("TwoBit");
    reveal_strlit("FourBit");
    assert("L2"@.len() != "InnerProduct"@.len());
    assert("None"@[0] != "OneBit"@[0]);
    assert("None"@[0] != "TwoBit"@[0]);
    assert("None"@[0] != "FourBit"@[0]);
    assert("OneBit"@[0] != "TwoBit"@[0]);
    assert("OneBit"@[0] != "FourBit"@[0]);
    assert("TwoBit"@.len() != "FourBit"@.len());
}

} // verus!
