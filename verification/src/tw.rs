//! The report materialization pipeline.
//!
//! The external tool emits fixed-width, column-aligned text.  A listing's
//! two-line header (a label row over an underline row) is the sole source of
//! column boundaries: every whitespace character in the underline row starts
//! the next column.  Data rows are sliced at those boundaries and trimmed.
//! A column-metadata listing, parsed the same way, yields the catalog that
//! maps fully-qualified column names to their semantic types.

use vstd::prelude::*;

use crate::text::{
    comma_fields_of, dec_str, field_at, fields_of, is_space, joined_commas, lines_of,
};
use crate::text::{
    is_space_char, join_commas, slice_between, split_commas, split_lines, str_eq, usize_to_string,
};
use crate::text::{clip, lemma_joined_commas_cons};

verus! {

/// The closed set of semantic column types the tool's metadata listing can
/// declare.
#[derive(Clone, Copy, Debug, Hash, PartialEq, Eq, Structural)]
pub enum AttributeType {
    DateTime,
    Numeric,
    String,
    Uda,
}

/// A column's semantic type together with whether the tool reports it as
/// read only.
#[derive(Clone, Copy, Debug, PartialEq, Eq, Structural)]
pub struct ColumnType {
    pub type_: AttributeType,
    pub read_only: bool,
}

/// Why an external invocation's outcome was not acceptable.
#[derive(Clone, Copy, Debug, PartialEq, Eq, Structural)]
pub enum InvokeError {
    /// The tool exited with a code other than 0, and not with the benign
    /// "no matching results" combination of code 1 and empty output.
    CommandFailed { code: i32 },
}

/// Why the column-metadata listing could not be turned into a catalog.
#[derive(Clone, Copy, Debug, PartialEq, Eq, Structural)]
pub enum CatalogError {
    /// The listing lacked the two header lines.
    MissingHeader,
    /// The header declared fewer than the four columns the record layout
    /// needs (name, type, modifiability, supported formats).
    TooFewColumns,
    /// A record's type field was outside the closed type vocabulary.
    UnknownAttributeType,
    /// A continuation record (empty name) appeared before any named record.
    ContinuationWithoutBase,
}

/// Why a report could not be materialized.
#[derive(Clone, Copy, Debug, PartialEq, Eq, Structural)]
pub enum ReportError {
    /// The report's configured column and label lists differ in length.
    ColumnLabelCountMismatch,
    /// Non-empty tool output without the two header lines.
    MissingHeader,
    /// A label in the tool's output is not among the report's configured
    /// labels.
    UnknownLabel,
    /// A configured column name has no catalog entry.
    UnknownColumn,
    /// A configuration query produced no output at all.
    MissingOutput,
}

/// The attribute type a type string of the tool's vocabulary denotes, if
/// any: `date`, `numeric`, `string`, or the `<type>` placeholder for
/// user-defined attributes.
pub open spec fn attr_type_of(s: Seq<char>) -> Option<AttributeType> {
    if s == "date"@ {
        Some(AttributeType::DateTime)
    } else if s == "numeric"@ {
        Some(AttributeType::Numeric)
    } else if s == "string"@ {
        Some(AttributeType::String)
    } else if s == "<type>"@ {
        Some(AttributeType::Uda)
    } else {
        None
    }
}

/// Maps a type string through the closed vocabulary; anything unrecognized
/// is a hard error, never a fallback type.
pub fn attribute_type_from_str(s: &str) -> (r: Result<AttributeType, CatalogError>)
    ensures
        r == match attr_type_of(s@) {
            Some(t) => Result::<AttributeType, CatalogError>::Ok(t),
            None => Result::<AttributeType, CatalogError>::Err(CatalogError::UnknownAttributeType),
        },
{
    if str_eq(s, "date") {
        Ok(AttributeType::DateTime)
    } else if str_eq(s, "numeric") {
        Ok(AttributeType::Numeric)
    } else if str_eq(s, "string") {
        Ok(AttributeType::String)
    } else if str_eq(s, "<type>") {
        Ok(AttributeType::Uda)
    } else {
        Err(CatalogError::UnknownAttributeType)
    }
}

/// One name-to-type record of the catalog.
struct CatalogEntry {
    name: String,
    column_type: ColumnType,
}

/// The mapping from fully-qualified column name to [`ColumnType`], built
/// once from the tool's column-metadata listing and immutable afterwards.
/// Later insertions overwrite earlier ones.
pub struct ColumnCatalog {
    entries: Vec<CatalogEntry>,
}

/// The map the records denote, in order: later records overwrite earlier
/// ones.
spec fn catalog_map(es: Seq<CatalogEntry>) -> Map<Seq<char>, ColumnType>
    decreases es.len(),
{
    if es.len() == 0 {
        Map::empty()
    } else {
        catalog_map(es.drop_last()).insert(es.last().name@, es.last().column_type)
    }
}

/// If no record at or after position `i` has key `k`, the records up to `i`
/// already decide `k`.
proof fn lemma_catalog_map_no_match(es: Seq<CatalogEntry>, k: Seq<char>, i: int)
    requires
        0 <= i <= es.len(),
        forall|j: int| i <= j < es.len() ==> #[trigger] es[j].name@ != k,
    ensures
        catalog_map(es).contains_key(k) == catalog_map(es.take(i)).contains_key(k),
        catalog_map(es).contains_key(k) ==> catalog_map(es)[k] == catalog_map(es.take(i))[k],
    decreases es.len() - i,
{
    if i == es.len() {
        assert(es.take(i) =~= es);
    } else {
        lemma_catalog_map_no_match(es, k, i + 1);
        assert(es.take(i + 1).drop_last() =~= es.take(i));
        assert(es.take(i + 1).last() == es[i]);
    }
}

impl View for ColumnCatalog {
    type V = Map<Seq<char>, ColumnType>;

    closed spec fn view(&self) -> Map<Seq<char>, ColumnType> {
        catalog_map(self.entries@)
    }
}

impl ColumnCatalog {
    /// An empty catalog.
    pub fn new() -> (r: Self)
        ensures
            r@ == Map::<Seq<char>, ColumnType>::empty(),
    {
        ColumnCatalog { entries: Vec::new() }
    }

    /// Adds one name-to-type record, overwriting any earlier one under the
    /// same name.
    pub fn insert(&mut self, name: String, column_type: ColumnType)
        ensures
            final(self)@ == old(self)@.insert(name@, column_type),
    {
        self.entries.push(CatalogEntry { name, column_type });
        proof {
            assert(self.entries@.drop_last() =~= old(self).entries@);
        }
    }

    /// Looks a fully-qualified column name up.
    pub fn get(&self, name: &str) -> (r: Option<ColumnType>)
        ensures
            r == if self@.contains_key(name@) {
                Some(self@[name@])
            } else {
                None::<ColumnType>
            },
    {
        let n = self.entries.len();
        let mut i: usize = n;
        while i > 0
            invariant
                i <= n,
                n == self.entries@.len(),
                forall|j: int| i <= j < n ==> #[trigger] self.entries@[j].name@ != name@,
            decreases i,
        {
            i = i - 1;
            if str_eq(self.entries[i].name.as_str(), name) {
                proof {
                    lemma_catalog_map_no_match(self.entries@, name@, i + 1);
                    assert(self.entries@.take(i + 1).drop_last() =~= self.entries@.take(i as int));
                    assert(self.entries@.take(i + 1).last() == self.entries@[i as int]);
                }
                return Some(self.entries[i].column_type);
            }
        }
        proof {
            lemma_catalog_map_no_match(self.entries@, name@, 0);
            assert(self.entries@.take(0) =~= Seq::<CatalogEntry>::empty());
        }
        None
    }
}

/// A `Seq<usize>` as mathematical integers.
pub open spec fn ints_of(s: Seq<usize>) -> Seq<int> {
    s.map_values(|x: usize| x as int)
}

/// The boundaries the underline row's whitespace marks: one offset just past
/// every whitespace character, in increasing order.
pub open spec fn ws_bounds(u: Seq<char>) -> Seq<int>
    decreases u.len(),
{
    if u.len() == 0 {
        Seq::empty()
    } else if is_space(u.last()) {
        ws_bounds(u.drop_last()).push(u.len() as int)
    } else {
        ws_bounds(u.drop_last())
    }
}

/// The column offsets an underline row defines: 0, one offset per
/// whitespace character, and the row's length.
pub open spec fn offsets_of(u: Seq<char>) -> Seq<int> {
    seq![0] + ws_bounds(u) + seq![u.len() as int]
}

/// The labels a two-line header defines: the label row sliced at the
/// underline row's offsets and trimmed.
pub open spec fn labels_of(label_line: Seq<char>, underline_line: Seq<char>) -> Seq<Seq<char>> {
    fields_of(label_line, offsets_of(underline_line))
}

/// Whitespace boundaries lie in `[1, len]` and increase strictly.
proof fn lemma_ws_bounds_props(u: Seq<char>)
    ensures
        forall|k: int| 0 <= k < ws_bounds(u).len() ==> 1 <= #[trigger] ws_bounds(u)[k] <= u.len(),
        forall|k1: int, k2: int|
            0 <= k1 < k2 < ws_bounds(u).len() ==> #[trigger] ws_bounds(u)[k1]
                < #[trigger] ws_bounds(u)[k2],
    decreases u.len(),
{
    if u.len() > 0 {
        lemma_ws_bounds_props(u.drop_last());
        let p = ws_bounds(u.drop_last());
        assert(u.drop_last().len() == u.len() - 1);
        assert forall|k: int| 0 <= k < ws_bounds(u).len() implies 1 <= #[trigger] ws_bounds(u)[k]
            <= u.len() by {
            if k < p.len() {
                assert(ws_bounds(u)[k] == p[k]);
            }
        }
        assert forall|k1: int, k2: int| 0 <= k1 < k2 < ws_bounds(u).len() implies #[trigger] ws_bounds(
            u,
        )[k1] < #[trigger] ws_bounds(u)[k2] by {
            assert(ws_bounds(u)[k1] == p[k1]);
            if k2 < p.len() {
                assert(ws_bounds(u)[k2] == p[k2]);
            } else {
                assert(p[k1] <= u.drop_last().len());
            }
        }
    }
}

/// The offsets of any underline row start at 0, end at its length, and
/// never decrease.
pub proof fn lemma_offsets_props(u: Seq<char>)
    ensures
        offsets_of(u).len() >= 2,
        offsets_of(u)[0] == 0,
        offsets_of(u).last() == u.len(),
        forall|k: int| 0 <= k < offsets_of(u).len() ==> 0 <= #[trigger] offsets_of(u)[k] <= u.len(),
        forall|k: int|
            0 <= k < offsets_of(u).len() - 1 ==> #[trigger] offsets_of(u)[k] <= offsets_of(u)[k
                + 1],
{
    lemma_ws_bounds_props(u);
}

/// Computes the column offsets and labels of a two-line header.  The
/// underline row alone fixes the boundaries; the label row may be ragged
/// (shorter slices trim to empty labels).  There is always one more offset
/// than labels, the first offset is 0 and the last is the underline row's
/// length.
pub fn parse_label_lines(label_line: &str, underline_line: &str) -> (r: (Vec<String>, Vec<usize>))
    ensures
        ints_of(r.1@) == offsets_of(underline_line@),
        r.0.deep_view() == labels_of(label_line@, underline_line@),
        r.1@.len() == r.0@.len() + 1,
        r.1@[0] == 0,
        r.1@.last() == underline_line@.len(),
{
    let n = underline_line.unicode_len();
    let mut offsets: Vec<usize> = Vec::new();
    offsets.push(0);
    let mut i: usize = 0;
    proof {
        assert(ints_of(offsets@) =~= seq![0int] + ws_bounds(underline_line@.take(0)));
    }
    while i < n
        invariant
            i <= n,
            n == underline_line@.len(),
            ints_of(offsets@) == seq![0int] + ws_bounds(underline_line@.take(i as int)),
        decreases n - i,
    {
        proof {
            assert(underline_line@.take(i + 1).drop_last() =~= underline_line@.take(i as int));
        }
        if is_space_char(underline_line.get_char(i)) {
            offsets.push(i + 1);
            proof {
                assert(ints_of(offsets@) =~= (seq![0int] + ws_bounds(underline_line@.take(i
                    as int))).push(i + 1));
                assert(ints_of(offsets@) =~= seq![0int] + ws_bounds(underline_line@.take(i + 1)));
            }
        }
        i = i + 1;
    }
    proof {
        assert(underline_line@.take(n as int) =~= underline_line@);
    }
    offsets.push(n);
    proof {
        assert(ints_of(offsets@) =~= offsets_of(underline_line@));
        lemma_offsets_props(underline_line@);
    }
    let labels = slice_row(label_line, &offsets);
    (labels, offsets)
}

/// Index of the first empty line, or `lines.len()` if none is empty.
pub open spec fn first_blank(lines: Seq<Seq<char>>) -> int
    decreases lines.len(),
{
    if lines.len() == 0 {
        0
    } else if lines[0].len() == 0 {
        0
    } else {
        1 + first_blank(lines.drop_first())
    }
}

/// `first_blank` is determined by where the first empty line stands.
proof fn lemma_first_blank_at(lines: Seq<Seq<char>>, k: int)
    requires
        0 <= k <= lines.len(),
        forall|j: int| 0 <= j < k ==> #[trigger] lines[j].len() != 0,
        k == lines.len() || lines[k].len() == 0,
    ensures
        first_blank(lines) == k,
    decreases k,
{
    if k > 0 {
        lemma_first_blank_at(lines.drop_first(), k - 1);
    }
}

/// The fold state of the catalog builder: the catalog so far, and the
/// (name, type) of the latest named record, which continuation records
/// inherit.
pub type CatalogFoldState = (Map<Seq<char>, ColumnType>, Option<(Seq<char>, ColumnType)>);

/// What one metadata record does to the fold state.  A record with both
/// name and formats empty is a separator and changes nothing.  A record
/// with an empty name inherits name and type from the latest named record.
/// A format ending in the `*` marker is the column's default: both the bare
/// name and the qualified `name.format` are catalogued; otherwise only the
/// qualified name is.
pub open spec fn catalog_row_step(
    m: Map<Seq<char>, ColumnType>,
    prev: Option<(Seq<char>, ColumnType)>,
    fields: Seq<Seq<char>>,
) -> Result<CatalogFoldState, CatalogError>
    recommends
        fields.len() >= 4,
{
    if fields[0].len() == 0 && fields[3].len() == 0 {
        Ok((m, prev))
    } else {
        let resolved: Result<(Seq<char>, ColumnType), CatalogError> = if fields[0].len() > 0 {
            match attr_type_of(fields[1]) {
                Some(t) => Ok(
                    (fields[0], ColumnType { type_: t, read_only: fields[2] == "Read Only"@ }),
                ),
                None => Err(CatalogError::UnknownAttributeType),
            }
        } else {
            match prev {
                Some(p) => Ok(p),
                None => Err(CatalogError::ContinuationWithoutBase),
            }
        };
        match resolved {
            Err(e) => Err(e),
            Ok(p) => {
                if fields[3].len() > 0 && fields[3].last() == '*' {
                    Ok(
                        (
                            m.insert(p.0 + "."@ + fields[3].drop_last(), p.1).insert(p.0, p.1),
                            Some(p),
                        ),
                    )
                } else {
                    Ok((m.insert(p.0 + "."@ + fields[3], p.1), Some(p)))
                }
            },
        }
    }
}

/// The fold state after the first `n` records, each sliced at the header's
/// offsets; the first failing record's error, if any, is the result.
pub open spec fn catalog_rows_fold(
    rows: Seq<Seq<char>>,
    offsets: Seq<int>,
    n: int,
) -> Result<CatalogFoldState, CatalogError>
    decreases n,
{
    if n <= 0 {
        Ok((Map::empty(), None))
    } else {
        match catalog_rows_fold(rows, offsets, n - 1) {
            Err(e) => Err(e),
            Ok(st) => catalog_row_step(st.0, st.1, fields_of(rows[n - 1], offsets)),
        }
    }
}

/// Once the fold has failed, folding further rows changes nothing.
proof fn lemma_catalog_fold_err_stable(rows: Seq<Seq<char>>, offsets: Seq<int>, n1: int, n2: int)
    requires
        0 <= n1 <= n2,
        catalog_rows_fold(rows, offsets, n1) is Err,
    ensures
        catalog_rows_fold(rows, offsets, n2) == catalog_rows_fold(rows, offsets, n1),
    decreases n2 - n1,
{
    if n2 > n1 {
        lemma_catalog_fold_err_stable(rows, offsets, n1, n2 - 1);
    }
}

/// What the whole column-metadata listing denotes: the catalog from folding
/// every record before the first blank line, after parsing offsets from the
/// two header lines.
pub open spec fn build_catalog_spec(output: Seq<char>) -> Result<
    Map<Seq<char>, ColumnType>,
    CatalogError,
> {
    let lines = lines_of(output);
    if lines.len() < 2 {
        Err(CatalogError::MissingHeader)
    } else {
        let offsets = offsets_of(lines[1]);
        if offsets.len() < 5 {
            Err(CatalogError::TooFewColumns)
        } else {
            let rows = lines.skip(2);
            match catalog_rows_fold(rows, offsets, first_blank(rows)) {
                Err(e) => Err(e),
                Ok(st) => Ok(st.0),
            }
        }
    }
}

/// A label row shorter than the underline row is never an error: any
/// column whose offset lies past the label row's end gets the empty label.
pub proof fn lemma_ragged_label_is_empty(label_line: Seq<char>, underline_line: Seq<char>, i: int)
    requires
        0 <= i < labels_of(label_line, underline_line).len(),
        offsets_of(underline_line)[i] >= label_line.len(),
    ensures
        labels_of(label_line, underline_line)[i] == Seq::<char>::empty(),
{
    lemma_offsets_props(underline_line);
    let offsets = offsets_of(underline_line);
    let n = label_line.len() as int;
    assert(clip(offsets[i], n) == n);
    assert(clip(offsets[i + 1], n) == n);
    assert(label_line.subrange(n, n) =~= Seq::<char>::empty());
}

/// An `Ok` fold never catalogues an empty key, and its continuation state,
/// when present, carries a non-empty base name.
proof fn lemma_fold_keys_nonempty(rows: Seq<Seq<char>>, offsets: Seq<int>, n: int)
    requires
        catalog_rows_fold(rows, offsets, n) is Ok,
    ensures
        forall|k: Seq<char>| #[trigger] catalog_rows_fold(rows, offsets, n)->Ok_0.0.contains_key(k)
            ==> k.len() > 0,
        catalog_rows_fold(rows, offsets, n)->Ok_0.1 matches Some(p) ==> p.0.len() > 0,
    decreases n,
{
    if n > 0 {
        let prior = catalog_rows_fold(rows, offsets, n - 1);
        assert(prior is Ok);
        lemma_fold_keys_nonempty(rows, offsets, n - 1);
        let st = prior->Ok_0;
        let fields = fields_of(rows[n - 1], offsets);
        let newm = catalog_rows_fold(rows, offsets, n)->Ok_0.0;
        assert forall|k: Seq<char>| #[trigger] newm.contains_key(k) implies k.len() > 0 by {
            if !st.0.contains_key(k) {
                if !(fields[0].len() == 0 && fields[3].len() == 0) {
                    if fields[0].len() > 0 {
                        assert(k.len() > 0);
                    } else {
                        assert(st.1 matches Some(p) && p.0.len() > 0);
                    }
                }
            }
        }
    }
}

/// No record of the column-metadata listing catalogues an empty key:
/// continuation records inherit a non-empty base name, and every qualified
/// key extends one.
pub proof fn lemma_catalog_keys_nonempty(output: Seq<char>)
    requires
        build_catalog_spec(output) is Ok,
    ensures
        forall|k: Seq<char>| #[trigger] build_catalog_spec(output)->Ok_0.contains_key(k) ==> k.len()
            > 0,
{
    let rows = lines_of(output).skip(2);
    let offsets = offsets_of(lines_of(output)[1]);
    lemma_fold_keys_nonempty(rows, offsets, first_blank(rows));
}

/// A named record whose format carries the default marker catalogues
/// exactly two keys, the qualified name and the bare name, both with the
/// same column type.
pub proof fn lemma_wildcard_row_keys(
    m: Map<Seq<char>, ColumnType>,
    prev: Option<(Seq<char>, ColumnType)>,
    fields: Seq<Seq<char>>,
    t: AttributeType,
)
    requires
        fields.len() >= 4,
        fields[0].len() > 0,
        attr_type_of(fields[1]) == Some(t),
        fields[3].len() > 0,
        fields[3].last() == '*',
    ensures
        ({
            let ct = ColumnType { type_: t, read_only: fields[2] == "Read Only"@ };
            let qualified = fields[0] + "."@ + fields[3].drop_last();
            &&& catalog_row_step(m, prev, fields) == Ok::<CatalogFoldState, CatalogError>(
                ((m.insert(qualified, ct).insert(fields[0], ct), Some((fields[0], ct)))),
            )
            &&& catalog_row_step(m, prev, fields)->Ok_0.0.dom() == m.dom().insert(
                qualified,
            ).insert(fields[0])
            &&& catalog_row_step(m, prev, fields)->Ok_0.0[fields[0]] == ct
            &&& catalog_row_step(m, prev, fields)->Ok_0.0[qualified] == ct
        }),
{
    let ct = ColumnType { type_: t, read_only: fields[2] == "Read Only"@ };
    let qualified = fields[0] + "."@ + fields[3].drop_last();
    reveal_strlit(".");
    assert(qualified.len() > fields[0].len());
    assert(m.insert(qualified, ct).insert(fields[0], ct).dom() =~= m.dom().insert(
        qualified,
    ).insert(fields[0]));
}

/// A named record without the default marker catalogues exactly one key,
/// the qualified name.
pub proof fn lemma_plain_row_keys(
    m: Map<Seq<char>, ColumnType>,
    prev: Option<(Seq<char>, ColumnType)>,
    fields: Seq<Seq<char>>,
    t: AttributeType,
)
    requires
        fields.len() >= 4,
        fields[0].len() > 0,
        attr_type_of(fields[1]) == Some(t),
        !(fields[3].len() > 0 && fields[3].last() == '*'),
    ensures
        ({
            let ct = ColumnType { type_: t, read_only: fields[2] == "Read Only"@ };
            let qualified = fields[0] + "."@ + fields[3];
            &&& catalog_row_step(m, prev, fields) == Ok::<CatalogFoldState, CatalogError>(
                ((m.insert(qualified, ct), Some((fields[0], ct)))),
            )
            &&& catalog_row_step(m, prev, fields)->Ok_0.0.dom() == m.dom().insert(qualified)
            &&& catalog_row_step(m, prev, fields)->Ok_0.0[qualified] == ct
        }),
{
    let ct = ColumnType { type_: t, read_only: fields[2] == "Read Only"@ };
    let qualified = fields[0] + "."@ + fields[3];
    assert(m.insert(qualified, ct).dom() =~= m.dom().insert(qualified));
}

/// The qualified catalog key `base.format`.
fn qualified_name(base: &str, fmt: &str) -> (r: String)
    ensures
        r@ == base@ + "."@ + fmt@,
{
    let mut s = String::from_str(base);
    s.append(".");
    s.append(fmt);
    proof {
        assert(s@ =~= base@ + "."@ + fmt@);
    }
    s
}

/// The ghost image of the builder's continuation state.
spec fn prev_of(p: Option<(String, ColumnType)>) -> Option<(Seq<char>, ColumnType)> {
    match p {
        Some(q) => Some((q.0@, q.1)),
        None => None,
    }
}

/// The first blank's index lies between 0 and the line count.
proof fn lemma_first_blank_bounds(lines: Seq<Seq<char>>)
    ensures
        0 <= first_blank(lines) <= lines.len(),
    decreases lines.len(),
{
    if lines.len() > 0 && lines[0].len() != 0 {
        lemma_first_blank_bounds(lines.drop_first());
    }
}

/// All lines before `n` being non-empty puts the first blank at `n` or
/// later.
proof fn lemma_first_blank_ge(lines: Seq<Seq<char>>, n: int)
    requires
        0 <= n <= lines.len(),
        forall|j: int| 0 <= j < n ==> #[trigger] lines[j].len() != 0,
    ensures
        first_blank(lines) >= n,
    decreases n,
{
    lemma_first_blank_bounds(lines);
    if n > 0 {
        assert(lines[0].len() != 0);
        assert forall|j: int| 0 <= j < n - 1 implies #[trigger] lines.drop_first()[j].len()
            != 0 by {
            assert(lines.drop_first()[j] == lines[j + 1]);
        }
        lemma_first_blank_ge(lines.drop_first(), n - 1);
        assert(first_blank(lines) == 1 + first_blank(lines.drop_first()));
    }
}

/// A fold error over non-empty rows is the listing's result.
proof fn lemma_catalog_spec_err(output: Seq<char>, n: int, e: CatalogError)
    requires
        lines_of(output).len() >= 2,
        offsets_of(lines_of(output)[1]).len() >= 5,
        0 <= n <= lines_of(output).skip(2).len(),
        forall|j: int| 0 <= j < n ==> #[trigger] lines_of(output).skip(2)[j].len() != 0,
        catalog_rows_fold(lines_of(output).skip(2), offsets_of(lines_of(output)[1]), n)
            == Err::<CatalogFoldState, CatalogError>(e),
    ensures
        build_catalog_spec(output) == Err::<Map<Seq<char>, ColumnType>, CatalogError>(e),
{
    let rows = lines_of(output).skip(2);
    let offsets = offsets_of(lines_of(output)[1]);
    lemma_first_blank_ge(rows, n);
    lemma_catalog_fold_err_stable(rows, offsets, n, first_blank(rows));
}

/// Parses the column-metadata listing into the catalog, exactly as
/// [`build_catalog_spec`] describes it: offsets from the two header lines,
/// then one record per row up to the first blank line, with continuation
/// and default-format rules applied.
pub fn build_column_name_to_type_map(output: &str) -> (r: Result<ColumnCatalog, CatalogError>)
    ensures
        (r is Ok) == (build_catalog_spec(output@) is Ok),
        r matches Ok(c) ==> build_catalog_spec(output@) == Ok::<
            Map<Seq<char>, ColumnType>,
            CatalogError,
        >(c@),
        r matches Err(e) ==> build_catalog_spec(output@) == Err::<
            Map<Seq<char>, ColumnType>,
            CatalogError,
        >(e),
{
    let lines = split_lines(output);
    if lines.len() < 2 {
        return Err(CatalogError::MissingHeader);
    }
    let header = parse_label_lines(lines[0].as_str(), lines[1].as_str());
    let offsets = header.1;
    proof {
        assert(lines.deep_view()[1] == lines_of(output@)[1]);
    }
    if offsets.len() < 5 {
        proof {
            assert(ints_of(offsets@).len() == offsets@.len());
        }
        return Err(CatalogError::TooFewColumns);
    }
    let ghost rows = lines_of(output@).skip(2);
    let ghost offs = offsets_of(lines_of(output@)[1]);
    let mut catalog = ColumnCatalog::new();
    let mut prev: Option<(String, ColumnType)> = None;
    let mut i: usize = 2;
    while i < lines.len()
        invariant
            2 <= i <= lines@.len(),
            lines.deep_view() == lines_of(output@),
            lines@.len() >= 2,
            rows == lines_of(output@).skip(2),
            offs == offsets_of(lines_of(output@)[1]),
            ints_of(offsets@) == offs,
            offsets@.len() >= 5,
            forall|j: int| 0 <= j < i - 2 ==> #[trigger] rows[j].len() != 0,
            catalog_rows_fold(rows, offs, i - 2) == Ok::<CatalogFoldState, CatalogError>(
                ((catalog@, prev_of(prev))),
            ),
        decreases lines@.len() - i,
    {
        proof {
            assert(rows[i - 2] == lines.deep_view()[i as int]);
            assert(lines.deep_view()[i as int] == lines@[i as int]@);
        }
        if lines[i].as_str().is_empty() {
            proof {
                lemma_first_blank_at(rows, i - 2);
            }
            return Ok(catalog);
        }
        let fields = slice_row(lines[i].as_str(), &offsets);
        let ghost fields_s = fields_of(rows[i - 2], offs);
        proof {
            assert(fields.deep_view() == fields_s);
            assert(fields.deep_view()[0] == fields@[0]@);
            assert(fields.deep_view()[1] == fields@[1]@);
            assert(fields.deep_view()[2] == fields@[2]@);
            assert(fields.deep_view()[3] == fields@[3]@);
        }
        if fields[0].as_str().is_empty() && fields[3].as_str().is_empty() {
            proof {
                assert(catalog_row_step(catalog@, prev_of(prev), fields_s) == Ok::<
                    CatalogFoldState,
                    CatalogError,
                >(((catalog@, prev_of(prev)))));
                assert(catalog_rows_fold(rows, offs, i - 1) == Ok::<
                    CatalogFoldState,
                    CatalogError,
                >(((catalog@, prev_of(prev)))));
            }
        } else {
            let name: String;
            let ct: ColumnType;
            if !fields[0].as_str().is_empty() {
                let t = match attribute_type_from_str(fields[1].as_str()) {
                    Ok(t) => t,
                    Err(e) => {
                        proof {
                            assert(catalog_row_step(catalog@, prev_of(prev), fields_s) == Err::<
                                CatalogFoldState,
                                CatalogError,
                            >(e));
                            assert(catalog_rows_fold(rows, offs, i - 1) == Err::<
                                CatalogFoldState,
                                CatalogError,
                            >(e));
                            lemma_catalog_spec_err(output@, i - 1, e);
                        }
                        return Err(e);
                    },
                };
                let ro = str_eq(fields[2].as_str(), "Read Only");
                name = fields[0].clone();
                ct = ColumnType { type_: t, read_only: ro };
            } else {
                match &prev {
                    Some(p) => {
                        name = p.0.clone();
                        ct = p.1;
                    },
                    None => {
                        proof {
                            assert(catalog_row_step(catalog@, prev_of(prev), fields_s) == Err::<
                                CatalogFoldState,
                                CatalogError,
                            >(CatalogError::ContinuationWithoutBase));
                            assert(catalog_rows_fold(rows, offs, i - 1) == Err::<
                                CatalogFoldState,
                                CatalogError,
                            >(CatalogError::ContinuationWithoutBase));
                            lemma_catalog_spec_err(
                                output@,
                                i - 1,
                                CatalogError::ContinuationWithoutBase,
                            );
                        }
                        return Err(CatalogError::ContinuationWithoutBase);
                    },
                }
            }
            let fmt_len = fields[3].as_str().unicode_len();
            if fmt_len > 0 && fields[3].as_str().get_char(fmt_len - 1) == '*' {
                let fmt_body = fields[3].as_str().substring_char(0, fmt_len - 1);
                proof {
                    assert(fmt_body@ =~= fields_s[3].drop_last());
                }
                let key = qualified_name(name.as_str(), fmt_body);
                catalog.insert(key, ct);
                catalog.insert(name.clone(), ct);
            } else {
                let key = qualified_name(name.as_str(), fields[3].as_str());
                catalog.insert(key, ct);
            }
            prev = Some((name, ct));
            proof {
                assert(catalog_rows_fold(rows, offs, i - 1) == Ok::<
                    CatalogFoldState,
                    CatalogError,
                >(((catalog@, prev_of(prev)))));
            }
        }
        i = i + 1;
    }
    proof {
        assert(rows.len() == lines@.len() - 2);
        lemma_first_blank_at(rows, rows.len() as int);
    }
    Ok(catalog)
}

/// Slices one data row at consecutive offset pairs, trimming each field.
/// The row may be shorter than the offsets: short or missing trailing
/// fields come back empty, never an error.
pub fn slice_row(line: &str, offsets: &Vec<usize>) -> (r: Vec<String>)
    ensures
        r.deep_view() == fields_of(line@, ints_of(offsets@)),
        offsets@.len() >= 1 ==> r@.len() == offsets@.len() - 1,
        offsets@.len() == 0 ==> r@.len() == 0,
{
    let mut r: Vec<String> = Vec::new();
    if offsets.len() == 0 {
        proof {
            assert(r.deep_view() =~= fields_of(line@, ints_of(offsets@)));
        }
        return r;
    }
    let count = offsets.len() - 1;
    let mut i: usize = 0;
    while i < count
        invariant
            i <= count,
            count == offsets@.len() - 1,
            r@.len() == i,
            forall|j: int|
                0 <= j < i ==> #[trigger] r.deep_view()[j] == field_at(
                    line@,
                    offsets@[j] as int,
                    offsets@[j + 1] as int,
                ),
        decreases count - i,
    {
        let f = slice_between(line, offsets[i], offsets[i + 1]);
        let ghost prev = r;
        r.push(f);
        proof {
            assert forall|j: int| 0 <= j < i + 1 implies #[trigger] r.deep_view()[j] == field_at(
                line@,
                offsets@[j] as int,
                offsets@[j + 1] as int,
            ) by {
                if j < i {
                    assert(r.deep_view()[j] == prev.deep_view()[j]);
                } else {
                    assert(r.deep_view()[j] == f@);
                }
            }
        }
        i = i + 1;
    }
    proof {
        assert(r.deep_view() =~= fields_of(line@, ints_of(offsets@)));
    }
    r
}

/// Applies the tool's exit-code policy to a finished invocation: exit code
/// 0 succeeds; exit code 1 with empty output is the tool's convention for
/// "no matching results" and succeeds with that empty output; anything
/// else, including exit code 1 with non-empty output, is a hard error.
pub fn invocation_output(code: i32, stdout: String) -> (r: Result<String, InvokeError>)
    ensures
        code == 0 || (code == 1 && stdout@.len() == 0) ==> r == Ok::<String, InvokeError>(stdout),
        !(code == 0 || (code == 1 && stdout@.len() == 0)) ==> r == Err::<String, InvokeError>(
            InvokeError::CommandFailed { code },
        ),
{
    if code == 0 {
        Ok(stdout)
    } else if code == 1 && stdout.as_str().is_empty() {
        Ok(stdout)
    } else {
        Err(InvokeError::CommandFailed { code })
    }
}

/// The full argument vector of one invocation: the read-only safety flags
/// always, the output-shaping flags only for non-static listings, the
/// display width, then the caller's arguments.
pub open spec fn invocation_args_spec(
    args: Seq<Seq<char>>,
    report_width: nat,
    static_report: bool,
) -> Seq<Seq<char>> {
    (if static_report {
        Seq::<Seq<char>>::empty()
    } else {
        seq!["rc.verbose=label"@, "limit:4294967296"@]
    }) + seq!["rc.recurrence:0"@, "rc.gc:0"@] + seq!["rc.defaultwidth:"@ + dec_str(report_width)]
        + args
}

/// Builds the argument vector for one invocation of the tool, as
/// [`invocation_args_spec`] describes it.  A static listing (the
/// column-metadata table, with its own fixed header) must not receive the
/// output-shaping flags.
pub fn build_invocation_args(args: &Vec<String>, report_width: usize, static_report: bool) -> (r:
    Vec<String>)
    ensures
        r.deep_view() == invocation_args_spec(args.deep_view(), report_width as nat, static_report),
{
    let mut r: Vec<String> = Vec::new();
    if !static_report {
        r.push(String::from_str("rc.verbose=label"));
        r.push(String::from_str("limit:4294967296"));
    }
    r.push(String::from_str("rc.recurrence:0"));
    r.push(String::from_str("rc.gc:0"));
    let mut width_arg = String::from_str("rc.defaultwidth:");
    width_arg.append(usize_to_string(report_width).as_str());
    r.push(width_arg);
    let ghost prefix = r.deep_view();
    proof {
        assert(prefix =~= invocation_args_spec(
            Seq::<Seq<char>>::empty(),
            report_width as nat,
            static_report,
        ));
    }
    let mut j: usize = 0;
    while j < args.len()
        invariant
            j <= args@.len(),
            r.deep_view() == prefix + args.deep_view().take(j as int),
        decreases args@.len() - j,
    {
        let ghost old_dv = r.deep_view();
        r.push(args[j].clone());
        proof {
            assert(r.deep_view() =~= old_dv.push(args@[j as int]@));
            assert(args.deep_view().take(j + 1) =~= args.deep_view().take(j as int).push(
                args@[j as int]@,
            ));
            assert(r.deep_view() =~= prefix + args.deep_view().take(j + 1));
        }
        j = j + 1;
    }
    proof {
        assert(args.deep_view().take(args@.len() as int) =~= args.deep_view());
        assert(r.deep_view() =~= invocation_args_spec(
            args.deep_view(),
            report_width as nat,
            static_report,
        ));
    }
    r
}

/// The three arguments that request a report with the identity column
/// injected: the report's name, and overrides that prefix the configured
/// column list with `uuid` and the configured label list with `UUID`.
pub open spec fn report_args_spec(
    name: Seq<char>,
    columns: Seq<Seq<char>>,
    labels: Seq<Seq<char>>,
) -> Seq<Seq<char>> {
    seq![
        name,
        "rc.report."@ + name + ".columns:uuid,"@ + joined_commas(columns),
        "rc.report."@ + name + ".labels:UUID,"@ + joined_commas(labels),
    ]
}

/// Builds the identity-injecting invocation arguments for a report, as
/// [`report_args_spec`] describes them.
pub fn report_args(report_name: &str, report_columns: &Vec<String>, report_labels: &Vec<String>) -> (r:
    Vec<String>)
    ensures
        r.deep_view() == report_args_spec(
            report_name@,
            report_columns.deep_view(),
            report_labels.deep_view(),
        ),
{
    let mut col_arg = String::from_str("rc.report.");
    col_arg.append(report_name);
    col_arg.append(".columns:uuid,");
    col_arg.append(join_commas(report_columns).as_str());
    let mut lab_arg = String::from_str("rc.report.");
    lab_arg.append(report_name);
    lab_arg.append(".labels:UUID,");
    lab_arg.append(join_commas(report_labels).as_str());
    let mut r: Vec<String> = Vec::new();
    r.push(String::from_str(report_name));
    r.push(col_arg);
    r.push(lab_arg);
    proof {
        assert(r.deep_view() =~= report_args_spec(
            report_name@,
            report_columns.deep_view(),
            report_labels.deep_view(),
        ));
    }
    r
}

/// Splitting the label argument open: for a non-empty label list, the
/// argument's value is the comma join of the label list with the fixed
/// identity label prepended, and likewise for the column argument with the
/// identity column.
pub proof fn lemma_report_args_augment(
    name: Seq<char>,
    columns: Seq<Seq<char>>,
    labels: Seq<Seq<char>>,
)
    requires
        columns.len() >= 1,
        labels.len() >= 1,
    ensures
        report_args_spec(name, columns, labels)[1] == "rc.report."@ + name + ".columns:"@
            + joined_commas(seq!["uuid"@] + columns),
        report_args_spec(name, columns, labels)[2] == "rc.report."@ + name + ".labels:"@
            + joined_commas(seq!["UUID"@] + labels),
{
    lemma_joined_commas_cons("uuid"@, columns);
    lemma_joined_commas_cons("UUID"@, labels);
    reveal_strlit(".columns:uuid,");
    reveal_strlit(".columns:");
    reveal_strlit("uuid");
    reveal_strlit(".labels:UUID,");
    reveal_strlit(".labels:");
    reveal_strlit("UUID");
    reveal_strlit(",");
    assert(".columns:uuid,"@ =~= ".columns:"@ + "uuid"@ + ","@);
    assert(".labels:UUID,"@ =~= ".labels:"@ + "UUID"@ + ","@);
    assert(","@ =~= seq![',']);
    assert("rc.report."@ + name + ".columns:uuid,"@ + joined_commas(columns) =~= "rc.report."@
        + name + ".columns:"@ + ("uuid"@ + seq![','] + joined_commas(columns)));
    assert("rc.report."@ + name + ".labels:UUID,"@ + joined_commas(labels) =~= "rc.report."@ + name
        + ".labels:"@ + ("UUID"@ + seq![','] + joined_commas(labels)));
}

/// Splits a configuration query's answer: the first output line, at commas.
pub fn parse_dom_output(output: &str) -> (r: Result<Vec<String>, ReportError>)
    ensures
        lines_of(output@).len() == 0 ==> r == Err::<Vec<String>, ReportError>(
            ReportError::MissingOutput,
        ),
        lines_of(output@).len() > 0 ==> (r matches Ok(v) && v.deep_view() == comma_fields_of(
            lines_of(output@)[0],
        )),
{
    let lines = split_lines(output);
    if lines.len() == 0 {
        return Err(ReportError::MissingOutput);
    }
    Ok(split_commas(lines[0].as_str()))
}

/// One data row of a report: its trimmed attribute values, with the value
/// of the injected identity column held separately.
pub struct Task {
    pub attributes: Vec<String>,
    pub uuid: String,
}

/// The mathematical image of a [`Task`].
#[verifier::ext_equal]
pub struct TaskModel {
    pub attributes: Seq<Seq<char>>,
    pub uuid: Seq<char>,
}

impl View for Task {
    type V = TaskModel;

    open spec fn view(&self) -> TaskModel {
        TaskModel { attributes: self.attributes.deep_view(), uuid: self.uuid@ }
    }
}

/// A materialized report: one [`ColumnType`] per visible column, aligned
/// positionally with the labels, and the sliced rows.
pub struct Report {
    pub column_types: Vec<ColumnType>,
    pub labels: Vec<String>,
    pub tasks: Vec<Task>,
}

/// The mathematical image of a [`Report`].
#[verifier::ext_equal]
pub struct ReportModel {
    pub column_types: Seq<ColumnType>,
    pub labels: Seq<Seq<char>>,
    pub tasks: Seq<TaskModel>,
}

impl View for Report {
    type V = ReportModel;

    open spec fn view(&self) -> ReportModel {
        ReportModel {
            column_types: self.column_types@,
            labels: self.labels.deep_view(),
            tasks: Seq::new(self.tasks@.len(), |i: int| self.tasks@[i]@),
        }
    }
}

impl ReportModel {
    /// The structural invariant of every materialized report: types and
    /// labels are aligned, and every task has one attribute per label.
    pub open spec fn wf(self) -> bool {
        &&& self.column_types.len() == self.labels.len()
        &&& forall|i: int|
            0 <= i < self.tasks.len() ==> #[trigger] self.tasks[i].attributes.len()
                == self.labels.len()
    }
}

/// The mapping from display label to underlying column name that the first
/// `n` of the two configured lists define; a duplicated label keeps its
/// last column.
pub open spec fn label_map(labels: Seq<Seq<char>>, columns: Seq<Seq<char>>, n: int) -> Map<
    Seq<char>,
    Seq<char>,
>
    decreases n,
{
    if n <= 0 {
        Map::empty()
    } else {
        label_map(labels, columns, n - 1).insert(labels[n - 1], columns[n - 1])
    }
}

/// What classifying one label yields: its column name from the label map,
/// then that name's type from the catalog; either lookup failing is a hard
/// error.
pub open spec fn label_lookup(
    label: Seq<char>,
    labels: Seq<Seq<char>>,
    columns: Seq<Seq<char>>,
    catalog: Map<Seq<char>, ColumnType>,
) -> Result<ColumnType, ReportError>
    recommends
        labels.len() == columns.len(),
{
    let lm = label_map(labels, columns, labels.len() as int);
    if !lm.contains_key(label) {
        Err(ReportError::UnknownLabel)
    } else if !catalog.contains_key(lm[label]) {
        Err(ReportError::UnknownColumn)
    } else {
        Ok(catalog[lm[label]])
    }
}

/// If no configured label in `[i, n)` equals `k`, the first `i` already
/// decide `k`.
proof fn lemma_label_map_no_match(
    labels: Seq<Seq<char>>,
    columns: Seq<Seq<char>>,
    k: Seq<char>,
    i: int,
    n: int,
)
    requires
        0 <= i <= n <= labels.len(),
        forall|j: int| i <= j < n ==> labels[j] != k,
    ensures
        label_map(labels, columns, n).contains_key(k) == label_map(
            labels,
            columns,
            i,
        ).contains_key(k),
        label_map(labels, columns, n).contains_key(k) ==> label_map(labels, columns, n)[k]
            == label_map(labels, columns, i)[k],
    decreases n - i,
{
    if n > i {
        lemma_label_map_no_match(labels, columns, k, i, n - 1);
    }
}

/// Classifies the output's label under a report's configured label and
/// column lists: the latest configured occurrence of the label wins, and
/// its column name must be catalogued.
pub fn column_label_to_type(
    label: &str,
    report_labels: &Vec<String>,
    report_columns: &Vec<String>,
    catalog: &ColumnCatalog,
) -> (r: Result<ColumnType, ReportError>)
    requires
        report_labels@.len() == report_columns@.len(),
    ensures
        r == label_lookup(
            label@,
            report_labels.deep_view(),
            report_columns.deep_view(),
            catalog@,
        ),
{
    let ghost labels_s = report_labels.deep_view();
    let ghost columns_s = report_columns.deep_view();
    let n = report_labels.len();
    let mut i: usize = n;
    while i > 0
        invariant
            i <= n,
            n == labels_s.len(),
            n == report_labels@.len(),
            n == report_columns@.len(),
            labels_s == report_labels.deep_view(),
            columns_s == report_columns.deep_view(),
            forall|j: int| i <= j < n ==> labels_s[j] != label@,
        decreases i,
    {
        i = i - 1;
        if str_eq(report_labels[i].as_str(), label) {
            proof {
                lemma_label_map_no_match(labels_s, columns_s, label@, i + 1, n as int);
                assert(labels_s[i as int] == report_labels@[i as int]@);
                assert(columns_s[i as int] == report_columns@[i as int]@);
                assert(label_map(labels_s, columns_s, i + 1) == label_map(
                    labels_s,
                    columns_s,
                    i as int,
                ).insert(labels_s[i as int], columns_s[i as int]));
            }
            let ct = catalog.get(report_columns[i].as_str());
            match ct {
                Some(t) => {
                    return Ok(t);
                },
                None => {
                    return Err(ReportError::UnknownColumn);
                },
            }
        }
    }
    proof {
        lemma_label_map_no_match(labels_s, columns_s, label@, 0, n as int);
    }
    Err(ReportError::UnknownLabel)
}

/// The column types of the output's labels, in order; the first label that
/// cannot be classified decides the error.
pub open spec fn classify_labels(
    shown: Seq<Seq<char>>,
    labels: Seq<Seq<char>>,
    columns: Seq<Seq<char>>,
    catalog: Map<Seq<char>, ColumnType>,
    n: int,
) -> Result<Seq<ColumnType>, ReportError>
    decreases n,
{
    if n <= 0 {
        Ok(Seq::empty())
    } else {
        match classify_labels(shown, labels, columns, catalog, n - 1) {
            Err(e) => Err(e),
            Ok(s) => match label_lookup(shown[n - 1], labels, columns, catalog) {
                Err(e) => Err(e),
                Ok(ct) => Ok(s.push(ct)),
            },
        }
    }
}

/// Once classification has failed, further labels change nothing.
proof fn lemma_classify_err_stable(
    shown: Seq<Seq<char>>,
    labels: Seq<Seq<char>>,
    columns: Seq<Seq<char>>,
    catalog: Map<Seq<char>, ColumnType>,
    n1: int,
    n2: int,
)
    requires
        0 <= n1 <= n2,
        classify_labels(shown, labels, columns, catalog, n1) is Err,
    ensures
        classify_labels(shown, labels, columns, catalog, n2) == classify_labels(
            shown,
            labels,
            columns,
            catalog,
            n1,
        ),
    decreases n2 - n1,
{
    if n2 > n1 {
        lemma_classify_err_stable(shown, labels, columns, catalog, n1, n2 - 1);
    }
}

/// One data row as a task: sliced at the offsets, the first field (the
/// injected identity column) moved out of the attribute list.
pub open spec fn task_of(line: Seq<char>, offsets: Seq<int>) -> TaskModel
    recommends
        offsets.len() >= 2,
{
    let fs = fields_of(line, offsets);
    TaskModel { attributes: fs.drop_first(), uuid: fs[0] }
}

/// What a report's output text denotes under its configured column and
/// label lists and the catalog: the typed, labelled, sliced rows, or the
/// first hard error.  Empty output is the empty report, never an error.
pub open spec fn report_spec(
    columns: Seq<Seq<char>>,
    labels: Seq<Seq<char>>,
    output: Seq<char>,
    catalog: Map<Seq<char>, ColumnType>,
) -> Result<ReportModel, ReportError> {
    if columns.len() != labels.len() {
        Err(ReportError::ColumnLabelCountMismatch)
    } else if output.len() == 0 {
        Ok(ReportModel { column_types: Seq::empty(), labels: Seq::empty(), tasks: Seq::empty() })
    } else {
        let lines = lines_of(output);
        if lines.len() < 2 {
            Err(ReportError::MissingHeader)
        } else {
            let offsets = offsets_of(lines[1]);
            let shown = labels_of(lines[0], lines[1]).drop_first();
            match classify_labels(shown, labels, columns, catalog, shown.len() as int) {
                Err(e) => Err(e),
                Ok(cts) => Ok(
                    ReportModel {
                        column_types: cts,
                        labels: shown,
                        tasks: Seq::new(
                            (lines.len() - 2) as nat,
                            |i: int| task_of(lines[i + 2], offsets),
                        ),
                    },
                ),
            }
        }
    }
}

/// Stripping the injected identity column: a materialized report's labels
/// are the output header's labels without the first (the injected identity
/// label), and every task's identity is its row's first sliced field, with
/// the remaining fields as its attributes, in order.
pub proof fn lemma_report_strips_identity(
    columns: Seq<Seq<char>>,
    labels: Seq<Seq<char>>,
    output: Seq<char>,
    catalog: Map<Seq<char>, ColumnType>,
)
    requires
        report_spec(columns, labels, output, catalog) is Ok,
        output.len() != 0,
    ensures
        ({
            let rep = report_spec(columns, labels, output, catalog)->Ok_0;
            let lines = lines_of(output);
            let offsets = offsets_of(lines[1]);
            &&& lines.len() >= 2
            &&& rep.labels == labels_of(lines[0], lines[1]).drop_first()
            &&& rep.tasks.len() == lines.len() - 2
            &&& forall|i: int|
                0 <= i < rep.tasks.len() ==> #[trigger] rep.tasks[i].uuid == fields_of(
                    lines[i + 2],
                    offsets,
                )[0]
            &&& forall|i: int|
                0 <= i < rep.tasks.len() ==> #[trigger] rep.tasks[i].attributes == fields_of(
                    lines[i + 2],
                    offsets,
                ).drop_first()
        }),
{
}

/// Materializes a report from the tool's output, exactly as [`report_spec`]
/// describes it.  Every successful report satisfies the structural
/// invariant [`ReportModel::wf`], and empty output yields the empty report.
pub fn report(
    report_columns: &Vec<String>,
    report_labels: &Vec<String>,
    output: &str,
    catalog: &ColumnCatalog,
) -> (r: Result<Report, ReportError>)
    ensures
        (r is Ok) == (report_spec(
            report_columns.deep_view(),
            report_labels.deep_view(),
            output@,
            catalog@,
        ) is Ok),
        r matches Ok(rep) ==> report_spec(
            report_columns.deep_view(),
            report_labels.deep_view(),
            output@,
            catalog@,
        ) == Ok::<ReportModel, ReportError>(rep@),
        r matches Err(e) ==> report_spec(
            report_columns.deep_view(),
            report_labels.deep_view(),
            output@,
            catalog@,
        ) == Err::<ReportModel, ReportError>(e),
        r matches Ok(rep) ==> rep@.wf(),
        output@.len() == 0 && report_columns@.len() == report_labels@.len() ==> (r matches Ok(rep)
            && rep@.column_types.len() == 0 && rep@.labels.len() == 0 && rep@.tasks.len() == 0),
{
    let ghost columns_s = report_columns.deep_view();
    let ghost labels_s = report_labels.deep_view();
    if report_columns.len() != report_labels.len() {
        return Err(ReportError::ColumnLabelCountMismatch);
    }
    if output.is_empty() {
        let rep = Report { column_types: Vec::new(), labels: Vec::new(), tasks: Vec::new() };
        proof {
            assert(rep@ =~= ReportModel {
                column_types: Seq::empty(),
                labels: Seq::empty(),
                tasks: Seq::empty(),
            });
        }
        return Ok(rep);
    }
    let lines = split_lines(output);
    if lines.len() < 2 {
        return Err(ReportError::MissingHeader);
    }
    let ghost lines_s = lines_of(output@);
    let header = parse_label_lines(lines[0].as_str(), lines[1].as_str());
    let mut present_labels = header.0;
    let offsets = header.1;
    let ghost offs = offsets_of(lines_s[1]);
    proof {
        assert(lines.deep_view()[0] == lines_s[0]);
        assert(lines.deep_view()[1] == lines_s[1]);
        lemma_offsets_props(lines_s[1]);
    }
    let ghost shown = labels_of(lines_s[0], lines_s[1]).drop_first();
    present_labels.remove(0);
    proof {
        assert(present_labels.deep_view() =~= shown);
    }
    let mut tasks: Vec<Task> = Vec::new();
    let mut i: usize = 2;
    while i < lines.len()
        invariant
            2 <= i <= lines@.len(),
            lines.deep_view() == lines_s,
            ints_of(offsets@) == offs,
            offsets@.len() >= 2,
            tasks@.len() == i - 2,
            forall|j: int| 0 <= j < i - 2 ==> #[trigger] tasks@[j]@ =~= task_of(lines_s[j + 2], offs),
        decreases lines@.len() - i,
    {
        proof {
            assert(lines.deep_view()[i as int] == lines@[i as int]@);
        }
        let mut fields = slice_row(lines[i].as_str(), &offsets);
        let ghost fields_s = fields_of(lines_s[i as int], offs);
        let uuid = fields.remove(0);
        proof {
            assert(uuid@ == fields_s[0]);
            assert(fields.deep_view() =~= fields_s.drop_first());
        }
        let ghost prev_tasks = tasks;
        tasks.push(Task { attributes: fields, uuid });
        proof {
            assert forall|j: int| 0 <= j < i - 1 implies #[trigger] tasks@[j]@ =~= task_of(
                lines_s[j + 2],
                offs,
            ) by {
                if j < i - 2 {
                    assert(tasks@[j] == prev_tasks@[j]);
                }
            }
        }
        i = i + 1;
    }
    let mut column_types: Vec<ColumnType> = Vec::new();
    let mut k: usize = 0;
    while k < present_labels.len()
        invariant
            k <= present_labels@.len(),
            present_labels.deep_view() == shown,
            report_labels@.len() == report_columns@.len(),
            columns_s == report_columns.deep_view(),
            labels_s == report_labels.deep_view(),
            output@.len() != 0,
            columns_s.len() == labels_s.len(),
            lines_s == lines_of(output@),
            lines_s.len() >= 2,
            shown == labels_of(lines_s[0], lines_s[1]).drop_first(),
            column_types@.len() == k,
            classify_labels(shown, labels_s, columns_s, catalog@, k as int) == Ok::<
                Seq<ColumnType>,
                ReportError,
            >(column_types@),
        decreases present_labels@.len() - k,
    {
        proof {
            assert(present_labels.deep_view()[k as int] == present_labels@[k as int]@);
        }
        match column_label_to_type(
            present_labels[k].as_str(),
            report_labels,
            report_columns,
            catalog,
        ) {
            Ok(ct) => {
                column_types.push(ct);
                proof {
                    assert(classify_labels(shown, labels_s, columns_s, catalog@, k + 1) == Ok::<
                        Seq<ColumnType>,
                        ReportError,
                    >(column_types@));
                }
            },
            Err(e) => {
                proof {
                    assert(classify_labels(shown, labels_s, columns_s, catalog@, k + 1) == Err::<
                        Seq<ColumnType>,
                        ReportError,
                    >(e));
                    lemma_classify_err_stable(
                        shown,
                        labels_s,
                        columns_s,
                        catalog@,
                        k + 1,
                        shown.len() as int,
                    );
                }
                return Err(e);
            },
        }
        k = k + 1;
    }
    let rep = Report { column_types, labels: present_labels, tasks };
    proof {
        let model = report_spec(columns_s, labels_s, output@, catalog@)->Ok_0;
        assert(rep@.tasks =~= model.tasks);
        assert(rep@ =~= model);
        assert forall|j: int| 0 <= j < rep@.tasks.len() implies #[trigger] rep@.tasks[j].attributes.len()
            == rep@.labels.len() by {
            assert(fields_of(lines_s[j + 2], offs).len() == offs.len() - 1);
        }
    }
    Ok(rep)
}

} // verus!
