//! The document that the index stores for one domain.

use vstd::prelude::*;

use crate::domain::NormalizedDomain;
use crate::text::{push_char, views};
use tantivy::schema::{FacetOptions, Field, NumericOptions, Schema, SchemaBuilder, TextOptions};

verus! {

/// The names of the indexed fields.
pub const FIELD_DOMAIN_EXACT: &'static str = "domain_exact";
pub const FIELD_TOKENS: &'static str = "tokens";
pub const FIELD_TLD: &'static str = "tld";
pub const FIELD_LEN: &'static str = "len";
pub const FIELD_HAS_HYPHEN: &'static str = "has_hyphen";
pub const FIELD_LABEL: &'static str = "label";

/// The values of one document: the domain (exact, the identity of the
/// document), the words joined by single spaces, the tld, the label length,
/// the hyphen flag as 0 or 1, and the label.
pub struct DocumentFields {
    pub domain_exact: String,
    pub tokens: String,
    pub tld: String,
    pub len: u64,
    pub has_hyphen: u64,
    pub label: String,
}

impl DocumentFields {
    /// The document holds the values of `d`.
    pub open spec fn is_document_of(&self, d: NormalizedDomain) -> bool {
        &&& self.domain_exact@ == d.domain_exact@
        &&& self.tokens@ == join_words(views(d.tokens@))
        &&& self.tld@ == d.tld@
        &&& self.len == d.len as u64
        &&& self.has_hyphen == (if d.has_hyphen {
            1u64
        } else {
            0u64
        })
        &&& self.label@ == d.label@
    }
}

/// The words of `ws` joined by single spaces.
pub open spec fn join_words(ws: Seq<Seq<char>>) -> Seq<char>
    decreases ws.len(),
{
    if ws.len() == 0 {
        seq![]
    } else if ws.len() == 1 {
        ws[0]
    } else {
        join_words(ws.drop_last()) + seq![' '] + ws.last()
    }
}

/// The strings of `v` joined by single spaces.
pub fn join_with_spaces(v: &Vec<String>) -> (r: String)
    ensures
        r@ == join_words(views(v@)),
{
    let mut s = String::new();
    let mut i: usize = 0;
    while i < v.len()
        invariant
            i <= v@.len(),
            s@ == join_words(views(v@.take(i as int))),
        decreases v@.len() - i,
    {
        let ghost before = s@;
        if i > 0 {
            push_char(&mut s, ' ');
        }
        s.append(v[i].as_str());
        proof {
            let w = views(v@.take(i + 1));
            assert(w.drop_last() == views(v@.take(i as int)));
            assert(w.last() == v@[i as int]@);
            if i == 0 {
                assert(s@ == w[0]);
            } else {
                assert(s@ == before + seq![' '] + v@[i as int]@);
            }
        }
        i += 1;
    }
    assert(v@.take(v@.len() as int) == v@);
    s
}

/// The document stored for a normalised domain.
pub fn document_fields(d: &NormalizedDomain) -> (r: DocumentFields)
    ensures
        r.domain_exact@ == d.domain_exact@,
        r.tokens@ == join_words(views(d.tokens@)),
        r.tld@ == d.tld@,
        r.len == d.len as u64,
        r.has_hyphen == (if d.has_hyphen {
            1u64
        } else {
            0u64
        }),
        r.label@ == d.label@,
{
    DocumentFields {
        domain_exact: d.domain_exact.clone(),
        tokens: join_with_spaces(&d.tokens),
        tld: d.tld.clone(),
        len: d.len as u64,
        has_hyphen: if d.has_hyphen {
            1
        } else {
            0
        },
        label: d.label.clone(),
    }
}


#[verifier::external_type_specification]
#[verifier::external_body]
pub struct ExSchema(Schema);

#[verifier::external_type_specification]
#[verifier::external_body]
pub struct ExSchemaBuilder(SchemaBuilder);

#[verifier::external_type_specification]
#[verifier::external_body]
pub struct ExField(Field);

#[verifier::external_type_specification]
#[verifier::external_body]
pub struct ExTextOptions(TextOptions);

#[verifier::external_type_specification]
#[verifier::external_body]
pub struct ExNumericOptions(NumericOptions);

#[verifier::external_type_specification]
#[verifier::external_body]
pub struct ExFacetOptions(FacetOptions);

/// The names of the fields added to a schema builder, in order.
pub uninterp spec fn builder_names(b: SchemaBuilder) -> Seq<Seq<char>>;

/// The names of the fields of a schema, in order.
pub uninterp spec fn schema_names(s: Schema) -> Seq<Seq<char>>;

/// Relies on `Schema::builder`, which starts from an empty field list.
#[verifier::external_body]
fn new_builder() -> (r: SchemaBuilder)
    ensures
        builder_names(r) == Seq::<Seq<char>>::empty(),
{
    Schema::builder()
}

/// Relies on `SchemaBuilder::add_text_field`, which appends a field of the
/// given name (and panics on an empty name, on one that starts with `-`,
/// and on one already present).
#[verifier::external_body]
fn add_text_field(b: &mut SchemaBuilder, name: &str, options: TextOptions) -> (r: Field)
    requires
        name@.len() > 0,
        name@[0] != '-',
        !builder_names(*old(b)).contains(name@),
    ensures
        builder_names(*final(b)) == builder_names(*old(b)).push(name@),
{
    b.add_text_field(name, options)
}

/// Relies on `SchemaBuilder::add_u64_field`, which appends a field of the
/// given name (and panics on an empty name, on one that starts with `-`,
/// and on one already present).
#[verifier::external_body]
fn add_u64_field(b: &mut SchemaBuilder, name: &str, options: NumericOptions) -> (r: Field)
    requires
        name@.len() > 0,
        name@[0] != '-',
        !builder_names(*old(b)).contains(name@),
    ensures
        builder_names(*final(b)) == builder_names(*old(b)).push(name@),
{
    b.add_u64_field(name, options)
}

/// Relies on `SchemaBuilder::add_facet_field`, which appends a field of the
/// given name (and panics on an empty name, on one that starts with `-`,
/// and on one already present).
#[verifier::external_body]
fn add_facet_field(b: &mut SchemaBuilder, name: &str, options: FacetOptions) -> (r: Field)
    requires
        name@.len() > 0,
        name@[0] != '-',
        !builder_names(*old(b)).contains(name@),
    ensures
        builder_names(*final(b)) == builder_names(*old(b)).push(name@),
{
    b.add_facet_field(name, options)
}

/// Relies on `SchemaBuilder::build`, which keeps the fields as added.
#[verifier::external_body]
fn build_schema(b: SchemaBuilder) -> (r: Schema)
    ensures
        schema_names(r) == builder_names(b),
{
    b.build()
}

/// Relies on the `STRING` and `STORED` flags: an untokenised, stored text
/// field.
#[verifier::external_body]
fn exact_text_options() -> (r: TextOptions) {
    tantivy::schema::STRING | tantivy::schema::STORED
}

/// Relies on `TextOptions` and `TextFieldIndexing`: a stored text field
/// with the default tokenizer that records frequencies and positions.
#[verifier::external_body]
fn positional_text_options() -> (r: TextOptions) {
    let indexing = tantivy::schema::TextFieldIndexing::default()
        .set_tokenizer("default")
        .set_index_option(tantivy::schema::IndexRecordOption::WithFreqsAndPositions);
    TextOptions::default().set_indexing_options(indexing).set_stored()
}

/// Relies on `TextOptions` and `TextFieldIndexing`: a stored text field
/// with the default tokenizer that records frequencies.
#[verifier::external_body]
fn frequency_text_options() -> (r: TextOptions) {
    let indexing = tantivy::schema::TextFieldIndexing::default()
        .set_tokenizer("default")
        .set_index_option(tantivy::schema::IndexRecordOption::WithFreqs);
    TextOptions::default().set_indexing_options(indexing).set_stored()
}

/// Relies on `NumericOptions`: a stored number with fast access.
#[verifier::external_body]
fn fast_number_options() -> (r: NumericOptions) {
    NumericOptions::default().set_fast().set_stored()
}

/// Relies on `FacetOptions::default`.
#[verifier::external_body]
fn facet_options() -> (r: FacetOptions) {
    FacetOptions::default()
}

/// The schema of the domain index with its fields.
pub struct DomainSchema {
    pub schema: Schema,
    pub domain_exact: Field,
    pub tokens: Field,
    pub tld: Field,
    pub len: Field,
    pub has_hyphen: Field,
    pub label: Field,
}

/// The names of the indexed fields, in the order in which they are added.
pub open spec fn field_names() -> Seq<Seq<char>> {
    seq!["domain_exact"@, "tokens"@, "tld"@, "len"@, "has_hyphen"@, "label"@]
}

/// A name that differs from each of `names` in its length or its first
/// character is not among them.
proof fn lemma_fresh(names: Seq<Seq<char>>, n: Seq<char>)
    requires
        n.len() > 0,
        forall|i: int|
            0 <= i < names.len() ==> (#[trigger] names[i]).len() != n.len() || names[i][0] != n[0],
    ensures
        !names.contains(n),
{
}

impl DomainSchema {
    /// The schema: the exact domain (untokenised, stored), the words
    /// (tokenised with positions, stored), the tld (a facet), the length
    /// and the hyphen flag (fast, stored numbers), and the label (tokenised,
    /// stored).
    pub fn new() -> (r: Self)
        ensures
            schema_names(r.schema) == field_names(),
    {
        proof {
            reveal_strlit("domain_exact");
            reveal_strlit("tokens");
            reveal_strlit("tld");
            reveal_strlit("len");
            reveal_strlit("has_hyphen");
            reveal_strlit("label");
        }
        let mut b = new_builder();
        let domain_exact = add_text_field(&mut b, "domain_exact", exact_text_options());
        proof {
            lemma_fresh(builder_names(b), "tokens"@);
        }
        let tokens = add_text_field(&mut b, "tokens", positional_text_options());
        proof {
            lemma_fresh(builder_names(b), "tld"@);
        }
        let tld = add_facet_field(&mut b, "tld", facet_options());
        proof {
            lemma_fresh(builder_names(b), "len"@);
        }
        let len = add_u64_field(&mut b, "len", fast_number_options());
        proof {
            lemma_fresh(builder_names(b), "has_hyphen"@);
        }
        let has_hyphen = add_u64_field(&mut b, "has_hyphen", fast_number_options());
        proof {
            lemma_fresh(builder_names(b), "label"@);
        }
        let label = add_text_field(&mut b, "label", frequency_text_options());
        let schema = build_schema(b);
        assert(schema_names(schema) =~= field_names());
        DomainSchema { schema, domain_exact, tokens, tld, len, has_hyphen, label }
    }
}

impl Default for DomainSchema {
    fn default() -> (r: Self)
        ensures
            schema_names(r.schema) == field_names(),
    {
        DomainSchema::new()
    }
}

} // verus!
