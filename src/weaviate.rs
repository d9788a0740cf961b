use vstd::prelude::*;

verus! {

/// The JSON text of a string: a quoted literal with JSON escapes.
pub uninterp spec fn json_string(s: Seq<char>) -> Seq<char>;

/// The JSON text of an integer.
pub uninterp spec fn json_integer(n: i64) -> Seq<char>;

/// Relies on `serde_json::to_string` on a string slice, which writes the
/// quoted, escaped JSON literal of the string (it cannot fail for a `str`).
#[verifier::external_body]
fn quote(s: &str) -> (r: String)
    ensures
        r@ == json_string(s@),
{
    serde_json::to_string(s).unwrap_or_default()
}

/// Relies on `serde_json::to_string` on an `i64`, which writes the integer
/// in decimal (it cannot fail for an integer).
#[verifier::external_body]
fn integer(n: i64) -> (r: String)
    ensures
        r@ == json_integer(n),
{
    serde_json::to_string(&n).unwrap_or_default()
}

/// The items separated by commas.
pub open spec fn joined(items: Seq<Seq<char>>) -> Seq<char>
    decreases items.len(),
{
    if items.len() == 0 {
        Seq::empty()
    } else if items.len() == 1 {
        items[0]
    } else {
        joined(items.drop_last()) + ","@ + items.last()
    }
}

/// A JSON array of the given item texts.
pub open spec fn json_array(items: Seq<Seq<char>>) -> Seq<char> {
    "["@ + joined(items) + "]"@
}

proof fn lemma_joined_step(items: Seq<Seq<char>>, k: int)
    requires
        0 <= k < items.len(),
    ensures
        joined(items.subrange(0, k + 1)) == if k == 0 {
            items[0]
        } else {
            joined(items.subrange(0, k)) + ","@ + items[k]
        },
{
    assert(items.subrange(0, k + 1).drop_last() =~= items.subrange(0, k));
}

/// Writes `items` as a JSON array, given each item's text.
fn write_array(items: &Vec<String>) -> (r: String)
    ensures
        r@ == json_array(items@.map_values(|s: String| s@)),
{
    let ghost texts = items@.map_values(|s: String| s@);
    let mut out = String::from_str("[");
    let mut k: usize = 0;
    while k < items.len()
        invariant
            0 <= k <= items@.len(),
            texts == items@.map_values(|s: String| s@),
            out@ == "["@ + joined(texts.subrange(0, k as int)),
        decreases items.len() - k,
    {
        proof {
            lemma_joined_step(texts, k as int);
        }
        if k > 0 {
            out.append(",");
        }
        out.append(items[k].as_str());
        k = k + 1;
    }
    assert(texts.subrange(0, k as int) =~= texts);
    out.append("]");
    out
}

/// The JSON texts of a list of strings.
pub open spec fn strings_json(v: Seq<String>) -> Seq<char> {
    json_array(v.map_values(|s: String| json_string(s@)))
}

fn write_strings(v: &Vec<String>) -> (r: String)
    ensures
        r@ == strings_json(v@),
{
    let mut items: Vec<String> = Vec::new();
    let mut k: usize = 0;
    while k < v.len()
        invariant
            0 <= k <= v@.len(),
            items@.map_values(|s: String| s@) =~= v@.subrange(0, k as int).map_values(
                |s: String| json_string(s@),
            ),
        decreases v.len() - k,
    {
        let ghost before = items@;
        items.push(quote(v[k].as_str()));
        assert(items@.map_values(|s: String| s@) =~= before.map_values(|s: String| s@).push(
            json_string(v@[k as int]@),
        ));
        assert(v@.subrange(0, k + 1).map_values(|s: String| json_string(s@)) =~= v@.subrange(
            0,
            k as int,
        ).map_values(|s: String| json_string(s@)).push(json_string(v@[k as int]@)));
        k = k + 1;
    }
    assert(v@.subrange(0, k as int) =~= v@);
    write_array(&items)
}

/// How the operands of a compound filter combine.
#[derive(Clone, Copy, Debug, PartialEq, Eq, Structural)]
pub enum MultiOperator {
    And,
    Or,
}

/// The comparison of a filter leaf.
#[derive(Clone, Copy, Debug, PartialEq, Eq, Structural)]
pub enum Operator {
    And,
    Or,
    Not,
    Equal,
    NotEqual,
    GreaterThan,
    GreaterThanEqual,
    LessThan,
    LessThanEqual,
    Like,
    WithinGeoRange,
}

/// The value a filter leaf compares with, by kind.
pub enum WhereValue {
    Int(i64),
    Boolean(bool),
    String(String),
    Text(String),
}

/// A filter expression of the index service: a comparison leaf, or
/// operands combined by `And` or `Or`.
#[allow(inconsistent_fields)]
pub enum WeaviateWhere {
    Single { path: Vec<String>, operator: Operator, value: WhereValue },
    Multiple { operator: MultiOperator, operands: Vec<WeaviateWhere> },
}

impl MultiOperator {
    pub open spec fn json(self) -> Seq<char> {
        match self {
            MultiOperator::And => "\"And\""@,
            MultiOperator::Or => "\"Or\""@,
        }
    }

    pub fn to_json(&self) -> (r: String)
        ensures
            r@ == self.json(),
    {
        match self {
            MultiOperator::And => String::from_str("\"And\""),
            MultiOperator::Or => String::from_str("\"Or\""),
        }
    }
}

impl Operator {
    pub open spec fn json(self) -> Seq<char> {
        match self {
            Operator::And => "\"And\""@,
            Operator::Or => "\"Or\""@,
            Operator::Not => "\"Not\""@,
            Operator::Equal => "\"Equal\""@,
            Operator::NotEqual => "\"NotEqual\""@,
            Operator::GreaterThan => "\"GreaterThan\""@,
            Operator::GreaterThanEqual => "\"GreaterThanEqual\""@,
            Operator::LessThan => "\"LessThan\""@,
            Operator::LessThanEqual => "\"LessThanEqual\""@,
            Operator::Like => "\"Like\""@,
            Operator::WithinGeoRange => "\"WithinGeoRange\""@,
        }
    }

    pub fn to_json(&self) -> (r: String)
        ensures
            r@ == self.json(),
    {
        match self {
            Operator::And => String::from_str("\"And\""),
            Operator::Or => String::from_str("\"Or\""),
            Operator::Not => String::from_str("\"Not\""),
            Operator::Equal => String::from_str("\"Equal\""),
            Operator::NotEqual => String::from_str("\"NotEqual\""),
            Operator::GreaterThan => String::from_str("\"GreaterThan\""),
            Operator::GreaterThanEqual => String::from_str("\"GreaterThanEqual\""),
            Operator::LessThan => String::from_str("\"LessThan\""),
            Operator::LessThanEqual => String::from_str("\"LessThanEqual\""),
            Operator::Like => String::from_str("\"Like\""),
            Operator::WithinGeoRange => String::from_str("\"WithinGeoRange\""),
        }
    }
}

impl WhereValue {
    /// The value as a JSON member whose key names its kind.
    pub open spec fn json(self) -> Seq<char> {
        match self {
            WhereValue::Int(n) => "\"valueInt\":"@ + json_integer(n),
            WhereValue::Boolean(b) => "\"valueBoolean\":"@ + if b {
                "true"@
            } else {
                "false"@
            },
            WhereValue::String(s) => "\"valueString\":"@ + json_string(s@),
            WhereValue::Text(s) => "\"valueText\":"@ + json_string(s@),
        }
    }

    pub fn to_json(&self) -> (r: String)
        ensures
            r@ == self.json(),
    {
        match self {
            WhereValue::Int(n) => String::from_str("\"valueInt\":").concat(integer(*n).as_str()),
            WhereValue::Boolean(b) => {
                let key = String::from_str("\"valueBoolean\":");
                if *b {
                    key.concat("true")
                } else {
                    key.concat("false")
                }
            },
            WhereValue::String(s) => String::from_str("\"valueString\":").concat(
                quote(s.as_str()).as_str(),
            ),
            WhereValue::Text(s) => String::from_str("\"valueText\":").concat(
                quote(s.as_str()).as_str(),
            ),
        }
    }
}

/// The JSON text of a filter expression: a leaf is an object of its path,
/// its operator and its value member; a compound is an object of its
/// operator and the array of its operands.
pub open spec fn where_json(w: WeaviateWhere) -> Seq<char>
    decreases w,
{
    match w {
        WeaviateWhere::Single { path, operator, value } => "{\"path\":"@ + strings_json(path@)
            + ",\"operator\":"@ + operator.json() + ","@ + value.json() + "}"@,
        WeaviateWhere::Multiple { operator, operands } => "{\"operator\":"@ + operator.json()
            + ",\"operands\":"@ + json_array(wheres_json(operands@)) + "}"@,
    }
}

/// The JSON texts of a list of filter expressions.
pub open spec fn wheres_json(ws: Seq<WeaviateWhere>) -> Seq<Seq<char>>
    decreases ws,
{
    Seq::new(ws.len(), |k: int| if 0 <= k < ws.len() { where_json(ws[k]) } else { Seq::empty() })
}

impl WeaviateWhere {
    pub fn to_json(&self) -> (r: String)
        ensures
            r@ == where_json(*self),
        decreases self,
    {
        match self {
            WeaviateWhere::Single { path, operator, value } => {
                let mut out = String::from_str("{\"path\":");
                out.append(write_strings(path).as_str());
                out.append(",\"operator\":");
                out.append(operator.to_json().as_str());
                out.append(",");
                out.append(value.to_json().as_str());
                out.append("}");
                out
            },
            WeaviateWhere::Multiple { operator, operands } => {
                let mut items: Vec<String> = Vec::new();
                let mut k: usize = 0;
                while k < operands.len()
                    invariant
                        0 <= k <= operands@.len(),
                        *self == (WeaviateWhere::Multiple { operator: *operator, operands: *operands }),
                        items@.map_values(|s: String| s@) =~= wheres_json(operands@).subrange(
                            0,
                            k as int,
                        ),
                    decreases operands.len() - k,
                {
                    proof {
                        assert(decreases_to!(*self => (*self)->Multiple_operands));
                        assert(decreases_to!(*operands => operands@));
                        assert(decreases_to!(operands@ => operands@[k as int]));
                    }
                    let ghost before = items@;
                    items.push(operands[k].to_json());
                    assert(items@.map_values(|s: String| s@) =~= before.map_values(|s: String| s@).push(
                        where_json(operands@[k as int]),
                    ));
                    assert(wheres_json(operands@).subrange(0, k + 1) =~= wheres_json(operands@).subrange(
                        0,
                        k as int,
                    ).push(where_json(operands@[k as int])));
                    k = k + 1;
                }
                assert(wheres_json(operands@).subrange(0, k as int) =~= wheres_json(operands@));
                let mut out = String::from_str("{\"operator\":");
                out.append(operator.to_json().as_str());
                out.append(",\"operands\":");
                out.append(write_array(&items).as_str());
                out.append("}");
                out
            },
        }
    }
}

/// Which objects a batch delete selects: those of a class that match a
/// filter.
pub struct WeaviateMatch {
    pub class: String,
    pub where_: WeaviateWhere,
}

/// How much a batch delete reports back.
#[derive(Clone, Copy, Debug, PartialEq, Eq, Structural)]
pub enum Output {
    Minimal,
    Verbose,
}

/// The body of a batch delete request.
pub struct WeaviateBatchDelete {
    pub match_: WeaviateMatch,
    pub output: Option<Output>,
    pub dry_run: Option<bool>,
}

/// One object of a batch upsert: its class, its string properties (keys
/// unique, in the order first set) and its identifier.
pub struct WeaviateInput {
    pub class: String,
    pub properties: Vec<(String, String)>,
    pub id: Option<String>,
}

/// The body of a batch upsert request.
pub struct WeaviateBatchInput {
    pub objects: Vec<WeaviateInput>,
}

/// The texts and images handed to a vectorizer.
pub struct VectorizerInput {
    pub texts: Vec<String>,
    pub images: Vec<String>,
}

pub open spec fn match_json(m: WeaviateMatch) -> Seq<char> {
    "{\"class\":"@ + json_string(m.class@) + ",\"where\":"@ + where_json(m.where_) + "}"@
}

pub open spec fn output_json(o: Option<Output>) -> Seq<char> {
    match o {
        None => "null"@,
        Some(Output::Minimal) => "\"minimal\""@,
        Some(Output::Verbose) => "\"verbose\""@,
    }
}

pub open spec fn flag_json(b: Option<bool>) -> Seq<char> {
    match b {
        None => "null"@,
        Some(true) => "true"@,
        Some(false) => "false"@,
    }
}

/// The JSON text of a batch delete body.
pub open spec fn batch_delete_json(d: WeaviateBatchDelete) -> Seq<char> {
    "{\"match\":"@ + match_json(d.match_) + ",\"output\":"@ + output_json(d.output)
        + ",\"dryRun\":"@ + flag_json(d.dry_run) + "}"@
}

pub open spec fn properties_view(p: Seq<(String, String)>) -> Seq<(Seq<char>, Seq<char>)> {
    p.map_values(|t: (String, String)| (t.0@, t.1@))
}

/// The JSON text of an object's properties: one member per property.
pub open spec fn properties_json(p: Seq<(Seq<char>, Seq<char>)>) -> Seq<char> {
    "{"@ + joined(p.map_values(|t: (Seq<char>, Seq<char>)| json_string(t.0) + ":"@ + json_string(t.1)))
        + "}"@
}

/// The JSON text of an upsert object; it carries no vector.
pub open spec fn input_json(o: WeaviateInput) -> Seq<char> {
    "{\"class\":"@ + json_string(o.class@) + ",\"vector\":null,\"properties\":"@ + properties_json(
        properties_view(o.properties@),
    ) + ",\"id\":"@ + match o.id {
        None => "null"@,
        Some(id) => json_string(id@),
    } + "}"@
}

/// The JSON text of a batch upsert body.
pub open spec fn batch_input_json(b: WeaviateBatchInput) -> Seq<char> {
    "{\"objects\":"@ + json_array(b.objects@.map_values(|o: WeaviateInput| input_json(o))) + "}"@
}

/// `props` with property `key` set to `value`: in place when the key is
/// there (from position `k` on), else appended.
pub open spec fn set_property(props: Seq<(Seq<char>, Seq<char>)>, key: Seq<char>, value: Seq<char>, k: int) -> Seq<(Seq<char>, Seq<char>)>
    decreases props.len() - k,
{
    if k < 0 || k >= props.len() {
        props.push((key, value))
    } else if props[k].0 == key {
        props.update(k, (key, value))
    } else {
        set_property(props, key, value, k + 1)
    }
}

/// The filter leaf that selects the object with identifier `id`.
pub open spec fn is_id_leaf(w: WeaviateWhere, id: Seq<char>) -> bool {
    match w {
        WeaviateWhere::Single { path, operator, value } => {
            &&& path@.len() == 1
            &&& path@[0]@ == "id"@
            &&& operator == Operator::Equal
            &&& value is String
            &&& value->String_0@ == id
        },
        _ => false,
    }
}

impl WeaviateMatch {
    pub fn to_json(&self) -> (r: String)
        ensures
            r@ == match_json(*self),
    {
        let mut out = String::from_str("{\"class\":");
        out.append(quote(self.class.as_str()).as_str());
        out.append(",\"where\":");
        out.append(self.where_.to_json().as_str());
        out.append("}");
        out
    }
}

impl WeaviateBatchDelete {
    /// A delete of what `match_` selects, with the service's default output
    /// and no dry run.
    pub fn new(match_: WeaviateMatch) -> (r: WeaviateBatchDelete)
        ensures
            r.match_ == match_,
            r.output is None,
            r.dry_run is None,
    {
        WeaviateBatchDelete { match_, output: None, dry_run: None }
    }

    pub fn to_json(&self) -> (r: String)
        ensures
            r@ == batch_delete_json(*self),
    {
        let mut out = String::from_str("{\"match\":");
        out.append(self.match_.to_json().as_str());
        out.append(",\"output\":");
        match self.output {
            None => out.append("null"),
            Some(Output::Minimal) => out.append("\"minimal\""),
            Some(Output::Verbose) => out.append("\"verbose\""),
        }
        out.append(",\"dryRun\":");
        match self.dry_run {
            None => out.append("null"),
            Some(true) => out.append("true"),
            Some(false) => out.append("false"),
        }
        out.append("}");
        out
    }
}

impl WeaviateInput {
    /// An object of class `class`, with no properties and no identifier.
    pub fn class(class: String) -> (r: WeaviateInput)
        ensures
            r.class@ == class@,
            r.properties@.len() == 0,
            r.id is None,
    {
        WeaviateInput { class, properties: Vec::new(), id: None }
    }

    /// The object with property `key` set to `value`.
    pub fn property(self, key: String, value: String) -> (r: WeaviateInput)
        ensures
            r.class@ == self.class@,
            r.id == self.id,
            properties_view(r.properties@) == set_property(
                properties_view(self.properties@),
                key@,
                value@,
                0,
            ),
    {
        let mut props = self.properties;
        let ghost pv = properties_view(props@);
        let mut k: usize = 0;
        while k < props.len()
            invariant
                0 <= k <= props@.len(),
                pv == properties_view(props@),
                pv == properties_view(self.properties@),
                set_property(pv, key@, value@, 0) == set_property(pv, key@, value@, k as int),
            decreases props.len() - k,
        {
            if props[k].0 == key {
                props.set(k, (key, value));
                assert(properties_view(props@) =~= pv.update(k as int, (key@, value@)));
                return WeaviateInput { class: self.class, properties: props, id: self.id };
            }
            k = k + 1;
        }
        props.push((key, value));
        assert(properties_view(props@) =~= pv.push((key@, value@)));
        WeaviateInput { class: self.class, properties: props, id: self.id }
    }

    /// The object with identifier `id`.
    pub fn id(self, id: String) -> (r: WeaviateInput)
        ensures
            r.class@ == self.class@,
            properties_view(r.properties@) == properties_view(self.properties@),
            r.id == Some(id),
    {
        WeaviateInput { class: self.class, properties: self.properties, id: Some(id) }
    }

    pub fn to_json(&self) -> (r: String)
        ensures
            r@ == input_json(*self),
    {
        let ghost pv = properties_view(self.properties@);
        let ghost texts = pv.map_values(
            |t: (Seq<char>, Seq<char>)| json_string(t.0) + ":"@ + json_string(t.1),
        );
        let mut props = String::from_str("{");
        let mut k: usize = 0;
        while k < self.properties.len()
            invariant
                0 <= k <= pv.len(),
                pv == properties_view(self.properties@),
                texts == pv.map_values(
                    |t: (Seq<char>, Seq<char>)| json_string(t.0) + ":"@ + json_string(t.1),
                ),
                props@ == "{"@ + joined(texts.subrange(0, k as int)),
            decreases self.properties.len() - k,
        {
            proof {
                lemma_joined_step(texts, k as int);
            }
            if k > 0 {
                props.append(",");
            }
            props.append(quote(self.properties[k].0.as_str()).as_str());
            props.append(":");
            props.append(quote(self.properties[k].1.as_str()).as_str());
            k = k + 1;
        }
        assert(texts.subrange(0, k as int) =~= texts);
        props.append("}");
        let mut out = String::from_str("{\"class\":");
        out.append(quote(self.class.as_str()).as_str());
        out.append(",\"vector\":null,\"properties\":");
        out.append(props.as_str());
        out.append(",\"id\":");
        match &self.id {
            None => out.append("null"),
            Some(id) => out.append(quote(id.as_str()).as_str()),
        }
        out.append("}");
        out
    }
}

impl WeaviateBatchInput {
    pub fn new(objects: Vec<WeaviateInput>) -> (r: WeaviateBatchInput)
        ensures
            r.objects == objects,
    {
        WeaviateBatchInput { objects }
    }

    pub fn to_json(&self) -> (r: String)
        ensures
            r@ == batch_input_json(*self),
    {
        let mut items: Vec<String> = Vec::new();
        let mut k: usize = 0;
        while k < self.objects.len()
            invariant
                0 <= k <= self.objects@.len(),
                items@.map_values(|s: String| s@) =~= self.objects@.subrange(0, k as int).map_values(
                    |o: WeaviateInput| input_json(o),
                ),
            decreases self.objects.len() - k,
        {
            let ghost before = items@;
            items.push(self.objects[k].to_json());
            assert(items@.map_values(|s: String| s@) =~= before.map_values(|s: String| s@).push(
                input_json(self.objects@[k as int]),
            ));
            assert(self.objects@.subrange(0, k + 1).map_values(|o: WeaviateInput| input_json(o))
                =~= self.objects@.subrange(0, k as int).map_values(
                |o: WeaviateInput| input_json(o),
            ).push(input_json(self.objects@[k as int])));
            k = k + 1;
        }
        assert(self.objects@.subrange(0, k as int) =~= self.objects@);
        let mut out = String::from_str("{\"objects\":");
        out.append(write_array(&items).as_str());
        out.append("}");
        out
    }
}

/// The JSON text of the filter leaf that selects identifier `id`.
pub open spec fn id_leaf_json(id: Seq<char>) -> Seq<char> {
    "{\"path\":"@ + json_array(seq![json_string("id"@)]) + ",\"operator\":"@ + "\"Equal\""@ + ","@
        + "\"valueString\":"@ + json_string(id) + "}"@
}

/// The batch delete body that removes the image objects with identifiers
/// `ids`: an `Or` over one identifier-equality leaf per identifier, kept
/// as an `Or` even for a single identifier.
pub fn delete_request(ids: &Vec<String>) -> (r: WeaviateBatchDelete)
    ensures
        r.match_.class@ == "ClipImage"@,
        r.output is None,
        r.dry_run is None,
        r.match_.where_ is Multiple,
        r.match_.where_->Multiple_operator == MultiOperator::Or,
        r.match_.where_->Multiple_operands@.len() == ids@.len(),
        forall|k: int|
            0 <= k < ids@.len() ==> is_id_leaf(
                #[trigger] r.match_.where_->Multiple_operands@[k],
                ids@[k]@,
            ),
{
    let mut operands: Vec<WeaviateWhere> = Vec::new();
    let mut k: usize = 0;
    while k < ids.len()
        invariant
            0 <= k <= ids@.len(),
            operands@.len() == k,
            forall|q: int| 0 <= q < k ==> is_id_leaf(#[trigger] operands@[q], ids@[q]@),
        decreases ids.len() - k,
    {
        let path = vec![String::from_str("id")];
        operands.push(
            WeaviateWhere::Single {
                path,
                operator: Operator::Equal,
                value: WhereValue::String(ids[k].clone()),
            },
        );
        k = k + 1;
    }
    WeaviateBatchDelete::new(
        WeaviateMatch {
            class: String::from_str("ClipImage"),
            where_: WeaviateWhere::Multiple { operator: MultiOperator::Or, operands },
        },
    )
}

/// The filter of a delete by identifiers serializes as an `Or` object whose
/// operands are the identifier-equality leaves, one per identifier, in order.
pub proof fn lemma_delete_filter_json(w: WeaviateWhere, ids: Seq<Seq<char>>)
    requires
        w is Multiple,
        w->Multiple_operator == MultiOperator::Or,
        w->Multiple_operands@.len() == ids.len(),
        forall|k: int| 0 <= k < ids.len() ==> is_id_leaf(#[trigger] w->Multiple_operands@[k], ids[k]),
    ensures
        where_json(w) == "{\"operator\":"@ + "\"Or\""@ + ",\"operands\":"@ + json_array(
            ids.map_values(|id: Seq<char>| id_leaf_json(id)),
        ) + "}"@,
{
    let ops = w->Multiple_operands@;
    assert forall|k: int| 0 <= k < ids.len() implies #[trigger] wheres_json(ops)[k] == id_leaf_json(ids[k]) by {
        let leaf = ops[k];
        assert(is_id_leaf(leaf, ids[k]));
        let path = leaf->Single_path@;
        assert(path.map_values(|s: String| json_string(s@)) =~= seq![json_string("id"@)]);
    }
    assert(wheres_json(ops) =~= ids.map_values(|id: Seq<char>| id_leaf_json(id)));
}

/// The upsert object of an image: class `ClipImage`, identifier `id`, and
/// the encoded preview as its one property, `image`.
pub fn image_object(id: String, preview: String) -> (r: WeaviateInput)
    ensures
        r.class@ == "ClipImage"@,
        r.id == Some(id),
        properties_view(r.properties@) == seq![("image"@, preview@)],
{
    let r = WeaviateInput::class(String::from_str("ClipImage")).id(id).property(
        String::from_str("image"),
        preview,
    );
    assert(properties_view(r.properties@) =~= seq![("image"@, preview@)]);
    r
}

} // verus!
