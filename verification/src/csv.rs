//! A data graph as tables: one for each label, with a row for each vertex or edge.
use crate::flat::{props_view, schema_of, schema_views, FlatEdgeView, FlatGraph, FlatView};
use crate::lookups::{lemma_one_more_place, lists_places};
use crate::order::{sort, sorted};
use crate::pending::{has_label_already, labels_of};
use crate::query::{EdgeId, VertexId};
use crate::text::{append_decimal, copy_labels, decimal, is_text, label_views};
use crate::value::ScalarValue;
use vstd::prelude::*;
use vstd::string::*;

verus! {

/// Whether a text has to be put in quotes.
pub open spec fn needs_quotes(text: Seq<char>) -> bool {
    text.contains(',') || text.contains('"') || text.contains('\n')
}

/// A text with every quote doubled.
pub open spec fn doubled(text: Seq<char>) -> Seq<char>
    decreases text.len(),
{
    if text.len() == 0 {
        Seq::empty()
    } else if text.last() == '"' {
        doubled(text.drop_last()).push('"').push('"')
    } else {
        doubled(text.drop_last()).push(text.last())
    }
}

/// A text as a field: in quotes where it needs them.
pub open spec fn text_field(text: Seq<char>) -> Seq<char> {
    if needs_quotes(text) {
        seq!['"'] + doubled(text) + seq!['"']
    } else {
        text
    }
}

/// A number with its sign in decimal notation.
pub open spec fn signed_decimal(n: int) -> Seq<char> {
    if n < 0 {
        seq!['-'] + decimal((-n) as nat)
    } else {
        decimal(n as nat)
    }
}

/// A value as a field, where it is no floating-point value. A null is empty.
pub open spec fn plain_field(value: ScalarValue) -> Seq<char> {
    match value {
        ScalarValue::Boolean(Some(b)) => if b {
            "true"@
        } else {
            "false"@
        },
        ScalarValue::Int8(Some(n)) => signed_decimal(n as int),
        ScalarValue::Int16(Some(n)) => signed_decimal(n as int),
        ScalarValue::Int32(Some(n)) => signed_decimal(n as int),
        ScalarValue::Int64(Some(n)) => signed_decimal(n as int),
        ScalarValue::UInt8(Some(n)) => decimal(n as nat),
        ScalarValue::UInt16(Some(n)) => decimal(n as nat),
        ScalarValue::UInt32(Some(n)) => decimal(n as nat),
        ScalarValue::UInt64(Some(n)) => decimal(n as nat),
        ScalarValue::String(Some(text)) => text_field(text@),
        _ => Seq::empty(),
    }
}

/// Whether a text is a value as a field. A floating-point value is written by another function.
pub open spec fn is_field<F: Fn(&ScalarValue) -> String>(
    value: ScalarValue,
    float_text: F,
    field: Seq<char>,
) -> bool {
    match value {
        ScalarValue::Float32(Some(_)) | ScalarValue::Float64(Some(_)) => exists|text: String|
            text@ == field && #[trigger] float_text.ensures((&value,), text),
        _ => field == plain_field(value),
    }
}

fn has_char(text: &str, c: char) -> (result: bool)
    ensures
        result == text@.contains(c),
{
    let n: usize = text.unicode_len();
    let mut i: usize = 0;
    while i < n
        invariant
            n == text@.len(),
            i <= n,
            forall|j: int| 0 <= j < i ==> text@[j] != c,
        decreases n - i,
    {
        if text.get_char(i) == c {
            assert(text@[i as int] == c);
            return true;
        }
        i = i + 1;
    }
    false
}

fn double_quotes(text: &str) -> (result: String)
    ensures
        result@ == doubled(text@),
{
    let n: usize = text.unicode_len();
    let mut result: String = String::new();
    let mut i: usize = 0;
    assert(result@ =~= doubled(text@.take(0)));
    proof {
        reveal_strlit("\"\"");
    }
    while i < n
        invariant
            n == text@.len(),
            i <= n,
            "\"\""@ == seq!['"', '"'],
            result@ == doubled(text@.take(i as int)),
        decreases n - i,
    {
        let ghost before = result@;
        assert(text@.take(i + 1).drop_last() =~= text@.take(i as int));
        assert(text@.take(i + 1).last() == text@[i as int]);
        if text.get_char(i) == '"' {
            result.append("\"\"");
            assert(result@ =~= before.push('"').push('"'));
        } else {
            result.append(text.substring_char(i, i + 1));
            assert(result@ =~= before.push(text@[i as int]));
        }
        i = i + 1;
    }
    assert(text@.take(i as int) =~= text@);
    result
}

fn quote_text(text: &str) -> (result: String)
    ensures
        result@ == text_field(text@),
{
    if has_char(text, ',') || has_char(text, '"') || has_char(text, '\n') {
        proof {
            reveal_strlit("\"");
        }
        let mut result: String = "\"".to_owned();
        let inner: String = double_quotes(text);
        result.append(inner.as_str());
        result.append("\"");
        assert(result@ =~= seq!['"'] + doubled(text@) + seq!['"']);
        result
    } else {
        text.to_owned()
    }
}

fn signed_text(n: i64) -> (result: String)
    ensures
        result@ == signed_decimal(n as int),
{
    let mut result: String = String::new();
    if n < 0 {
        proof {
            reveal_strlit("-");
        }
        result.append("-");
        let size: u64 = if n == -0x8000_0000_0000_0000i64 {
            0x8000_0000_0000_0000u64
        } else {
            (-n) as u64
        };
        append_decimal(&mut result, size);
        assert(result@ =~= signed_decimal(n as int));
    } else {
        append_decimal(&mut result, n as u64);
        assert(result@ =~= signed_decimal(n as int));
    }
    result
}

fn unsigned_text(n: u64) -> (result: String)
    ensures
        result@ == decimal(n as nat),
{
    let mut result: String = String::new();
    append_decimal(&mut result, n);
    assert(result@ =~= decimal(n as nat));
    result
}

/// A value as a field.
pub fn scalar_to_csv<F: Fn(&ScalarValue) -> String>(v: &ScalarValue, float_text: &F) -> (result:
    String)
    requires
        forall|value: &ScalarValue| #[trigger] float_text.requires((value,)),
    ensures
        is_field(*v, *float_text, result@),
{
    match v {
        ScalarValue::Boolean(Some(b)) => if *b {
            "true".to_owned()
        } else {
            "false".to_owned()
        },
        ScalarValue::Int8(Some(n)) => signed_text(*n as i64),
        ScalarValue::Int16(Some(n)) => signed_text(*n as i64),
        ScalarValue::Int32(Some(n)) => signed_text(*n as i64),
        ScalarValue::Int64(Some(n)) => signed_text(*n),
        ScalarValue::UInt8(Some(n)) => unsigned_text(*n as u64),
        ScalarValue::UInt16(Some(n)) => unsigned_text(*n as u64),
        ScalarValue::UInt32(Some(n)) => unsigned_text(*n as u64),
        ScalarValue::UInt64(Some(n)) => unsigned_text(*n),
        ScalarValue::String(Some(text)) => quote_text(text.as_str()),
        ScalarValue::Float32(Some(_)) => float_text(v),
        ScalarValue::Float64(Some(_)) => float_text(v),
        _ => {
            let result: String = String::new();
            assert(result@ =~= Seq::empty());
            result
        },
    }
}

/// A row: what it begins with, and fields behind commas.
pub open spec fn row_text(start: Seq<char>, fields: Seq<Seq<char>>) -> Seq<char>
    decreases fields.len(),
{
    if fields.len() == 0 {
        start
    } else {
        row_text(start, fields.drop_last()) + ","@ + fields.last()
    }
}

/// Whether fields are those of properties, one for each name; it is empty where there is no
/// property.
pub open spec fn are_fields<F: Fn(&ScalarValue) -> String>(
    props: Option<Seq<ScalarValue>>,
    names: nat,
    float_text: F,
    fields: Seq<Seq<char>>,
) -> bool {
    &&& fields.len() == names
    &&& forall|i: int|
        #![trigger fields[i]]
        0 <= i < names ==> if props is Some && i < props->0.len() {
            is_field(props->0[i], float_text, fields[i])
        } else {
            fields[i] == Seq::<char>::empty()
        }
}

/// Whether a text is the row of an item with properties.
pub open spec fn is_row<F: Fn(&ScalarValue) -> String>(
    start: Seq<char>,
    props: Option<Seq<ScalarValue>>,
    names: nat,
    float_text: F,
    row: Seq<char>,
) -> bool {
    exists|fields: Seq<Seq<char>>| #[trigger]
        are_fields(props, names, float_text, fields) && row == row_text(start, fields)
}

fn write_row<F: Fn(&ScalarValue) -> String>(
    start: String,
    props: Option<&Vec<ScalarValue>>,
    names: usize,
    float_text: &F,
) -> (result: String)
    requires
        forall|value: &ScalarValue| #[trigger] float_text.requires((value,)),
    ensures
        is_row(start@, props_view(props), names as nat, *float_text, result@),
{
    let ghost begun = start@;
    let ghost values = props_view(props);
    let mut row: String = start;
    let ghost mut fields: Seq<Seq<char>> = Seq::empty();
    let mut i: usize = 0;
    while i < names
        invariant
            forall|value: &ScalarValue| #[trigger] float_text.requires((value,)),
            values == props_view(props),
            i <= names,
            are_fields(values, i as nat, *float_text, fields),
            row@ == row_text(begun, fields),
        decreases names - i,
    {
        let ghost before = fields;
        let ghost row_before = row@;
        let mut field: String = String::new();
        assert(field@ =~= Seq::empty());
        if let Some(list) = props {
            if i < list.len() {
                field = scalar_to_csv(&list[i], float_text);
            }
        }
        row.append(",");
        row.append(field.as_str());
        proof {
            fields = fields.push(field@);
            assert(fields.drop_last() =~= before);
            assert(row@ =~= row_before + ","@ + field@);
            assert forall|j: int|
                #![trigger fields[j]]
                0 <= j < i + 1 implies if values is Some && j < values->0.len() {
                is_field(values->0[j], *float_text, fields[j])
            } else {
                fields[j] == Seq::<char>::empty()
            } by {
                if j < i {
                    assert(fields[j] == before[j]);
                }
            }
        }
        i = i + 1;
    }
    row
}

fn write_header(start: &str, names: &Vec<String>) -> (result: String)
    ensures
        result@ == row_text(start@, label_views(names@)),
{
    let ghost all = label_views(names@);
    let mut row: String = start.to_owned();
    let mut i: usize = 0;
    while i < names.len()
        invariant
            all == label_views(names@),
            all.len() == names@.len(),
            i <= names@.len(),
            row@ == row_text(start@, all.take(i as int)),
        decreases names.len() - i,
    {
        let ghost before = row@;
        assert(all.take(i + 1).drop_last() =~= all.take(i as int));
        assert(all.take(i + 1).last() == names@[i as int]@);
        row.append(",");
        row.append(names[i].as_str());
        assert(row@ =~= before + ","@ + names@[i as int]@);
        i = i + 1;
    }
    assert(all.take(i as int) =~= all);
    row
}

/// Lines, each with a line break behind it.
pub open spec fn lines_text(lines: Seq<Seq<char>>) -> Seq<char>
    decreases lines.len(),
{
    if lines.len() == 0 {
        Seq::empty()
    } else {
        lines_text(lines.drop_last()) + lines.last() + "\n"@
    }
}

/// The names of the properties of a label; none where they are not known.
pub open spec fn names_for(schemas: Seq<(Seq<char>, Seq<Seq<char>>)>, label: Seq<char>) -> Seq<
    Seq<char>,
> {
    match schema_of(schemas, label) {
        Some(names) => names,
        None => Seq::empty(),
    }
}

fn find_names(schemas: &Vec<(String, Vec<String>)>, label: &str) -> (result: Vec<String>)
    ensures
        label_views(result@) == names_for(schema_views(schemas@), label@),
{
    let ghost views = schema_views(schemas@);
    let mut i: usize = 0;
    assert(views.skip(0) =~= views);
    while i < schemas.len()
        invariant
            views == schema_views(schemas@),
            views.len() == schemas@.len(),
            i <= schemas@.len(),
            schema_of(views, label@) == schema_of(views.skip(i as int), label@),
        decreases schemas.len() - i,
    {
        assert(views.skip(i as int).first() == views[i as int]);
        assert(views.skip(i as int).drop_first() =~= views.skip(i + 1));
        if is_text(schemas[i].0.as_str(), label) {
            return copy_labels(&schemas[i].1);
        }
        i = i + 1;
    }
    assert(views.skip(i as int).len() == 0);
    let none: Vec<String> = Vec::new();
    assert(label_views(none@) =~= Seq::empty());
    none
}

/// Whether lines are the table of the vertices with a label: a header, and a row for each.
pub open spec fn is_vertex_table<F: Fn(&ScalarValue) -> String>(
    data: FlatView,
    label: Seq<char>,
    float_text: F,
    lines: Seq<Seq<char>>,
) -> bool {
    let ids = data.labelled(label);
    let names = names_for(data.vertex_schemas, label);
    &&& lines.len() == ids.len() + 1
    &&& lines[0] == row_text("id"@, names)
    &&& forall|i: int|
        #![trigger lines[i + 1]]
        0 <= i < ids.len() ==> is_row(
            decimal(ids[i] as nat),
            data.vertex_props(label, ids[i]),
            names.len(),
            float_text,
            lines[i + 1],
        )
}

/// The table of the vertices with a label.
pub fn write_vertex_csv<F: Fn(&ScalarValue) -> String>(
    fg: &FlatGraph,
    label: &str,
    float_text: &F,
) -> (result: String)
    requires
        forall|value: &ScalarValue| #[trigger] float_text.requires((value,)),
    ensures
        exists|lines: Seq<Seq<char>>| #[trigger]
            is_vertex_table(fg@, label@, *float_text, lines) && result@ == lines_text(lines),
{
    let ghost data = fg@;
    let ghost all = data.labelled(label@);
    let ids: Vec<VertexId> = fg.all_vertex_ids_by_label(label);
    let names: Vec<String> = find_names(&fg.vertex_schemas, label);
    let ghost shown = names_for(data.vertex_schemas, label@);
    assert(shown.len() == names@.len());
    let header: String = write_header("id", &names);
    let ghost mut lines: Seq<Seq<char>> = seq![header@];
    let mut text: String = header;
    text.append("\n");
    proof {
        assert(lines.drop_last() =~= Seq::empty());
        assert(lines_text(Seq::<Seq<char>>::empty()) + header@ =~= header@);
        assert(text@ =~= lines_text(lines));
    }
    let mut i: usize = 0;
    while i < ids.len()
        invariant
            forall|value: &ScalarValue| #[trigger] float_text.requires((value,)),
            data == fg@,
            all == data.labelled(label@),
            ids@ == all,
            shown == names_for(data.vertex_schemas, label@),
            shown.len() == names@.len(),
            i <= ids@.len(),
            lines.len() == i + 1,
            lines[0] == row_text("id"@, shown),
            forall|j: int|
                #![trigger lines[j + 1]]
                0 <= j < i ==> is_row(
                    decimal(all[j] as nat),
                    data.vertex_props(label@, all[j]),
                    shown.len(),
                    *float_text,
                    lines[j + 1],
                ),
            text@ == lines_text(lines),
        decreases ids.len() - i,
    {
        let ghost before = lines;
        let ghost text_before = text@;
        let start: String = unsigned_text(ids[i]);
        let row: String = write_row(start, fg.vertex_props(label, ids[i]), names.len(), float_text);
        text.append(row.as_str());
        text.append("\n");
        proof {
            lines = lines.push(row@);
            assert(lines.drop_last() =~= before);
            assert(text@ =~= text_before + row@ + "\n"@);
            assert forall|j: int|
                #![trigger lines[j + 1]]
                0 <= j < i + 1 implies is_row(
                decimal(all[j] as nat),
                data.vertex_props(label@, all[j]),
                shown.len(),
                *float_text,
                lines[j + 1],
            ) by {
                if j < i {
                    assert(lines[j + 1] == before[j + 1]);
                }
            }
        }
        i = i + 1;
    }
    assert(is_vertex_table(data, label@, *float_text, lines));
    text
}

/// The edges with ids, in their order, as far as they are there.
pub open spec fn edges_with_ids(data: FlatView, ids: Seq<EdgeId>, n: int) -> Seq<FlatEdgeView>
    decreases n,
{
    if n <= 0 {
        Seq::empty()
    } else {
        match data.edge(ids[n - 1]) {
            Some(e) => edges_with_ids(data, ids, n - 1).push(e),
            None => edges_with_ids(data, ids, n - 1),
        }
    }
}

/// Whether lines are the table of edges: a header, and a row for each.
pub open spec fn is_edge_table<F: Fn(&ScalarValue) -> String>(
    data: FlatView,
    label: Seq<char>,
    edges: Seq<FlatEdgeView>,
    float_text: F,
    lines: Seq<Seq<char>>,
) -> bool {
    let names = names_for(data.edge_schemas, label);
    &&& lines.len() == edges.len() + 1
    &&& lines[0] == row_text("src,dst"@, names)
    &&& forall|i: int|
        #![trigger lines[i + 1]]
        0 <= i < edges.len() ==> is_row(
            decimal(edges[i].src as nat) + ","@ + decimal(edges[i].dst as nat),
            Some(edges[i].props),
            names.len(),
            float_text,
            lines[i + 1],
        )
}

/// The table of edges with a label.
pub fn write_edge_csv<F: Fn(&ScalarValue) -> String>(
    fg: &FlatGraph,
    edge_label: &str,
    eids: &Vec<EdgeId>,
    float_text: &F,
) -> (result: String)
    requires
        forall|value: &ScalarValue| #[trigger] float_text.requires((value,)),
    ensures
        exists|lines: Seq<Seq<char>>| #[trigger]
            is_edge_table(
                fg@,
                edge_label@,
                edges_with_ids(fg@, eids@, eids@.len() as int),
                *float_text,
                lines,
            ) && result@ == lines_text(lines),
{
    let ghost data = fg@;
    let names: Vec<String> = find_names(&fg.edge_schemas, edge_label);
    let ghost shown = names_for(data.edge_schemas, edge_label@);
    assert(shown.len() == names@.len());
    let header: String = write_header("src,dst", &names);
    let ghost mut lines: Seq<Seq<char>> = seq![header@];
    let mut text: String = header;
    text.append("\n");
    proof {
        assert(lines.drop_last() =~= Seq::empty());
        assert(lines_text(Seq::<Seq<char>>::empty()) + header@ =~= header@);
        assert(text@ =~= lines_text(lines));
    }
    let mut i: usize = 0;
    while i < eids.len()
        invariant
            forall|value: &ScalarValue| #[trigger] float_text.requires((value,)),
            data == fg@,
            shown == names_for(data.edge_schemas, edge_label@),
            shown.len() == names@.len(),
            i <= eids@.len(),
            is_edge_table(
                data,
                edge_label@,
                edges_with_ids(data, eids@, i as int),
                *float_text,
                lines,
            ),
            text@ == lines_text(lines),
        decreases eids.len() - i,
    {
        let ghost before = lines;
        let ghost edges = edges_with_ids(data, eids@, i as int);
        let ghost text_before = text@;
        if let Some(e) = fg.edge_endpoints(eids[i]) {
            let mut start: String = unsigned_text(e.src);
            start.append(",");
            append_decimal(&mut start, e.dst);
            let row: String = write_row(start, Some(&e.props), names.len(), float_text);
            text.append(row.as_str());
            text.append("\n");
            proof {
                let more = edges_with_ids(data, eids@, i + 1);
                lines = lines.push(row@);
                assert(lines.drop_last() =~= before);
                assert(text@ =~= text_before + row@ + "\n"@);
                assert(more == edges.push(e@));
                assert forall|j: int|
                    #![trigger lines[j + 1]]
                    0 <= j < more.len() implies is_row(
                    decimal(more[j].src as nat) + ","@ + decimal(more[j].dst as nat),
                    Some(more[j].props),
                    shown.len(),
                    *float_text,
                    lines[j + 1],
                ) by {
                    if j < edges.len() {
                        assert(lines[j + 1] == before[j + 1]);
                        assert(more[j] == edges[j]);
                    }
                }
                assert(lines[0] == before[0]);
            }
        }
        i = i + 1;
    }
    text
}

/// The labels of edges, each of them once.
pub open spec fn edge_labels_of(edges: Seq<FlatEdgeView>) -> Seq<Seq<char>>
    decreases edges.len(),
{
    if edges.len() == 0 {
        Seq::empty()
    } else {
        let before = edge_labels_of(edges.drop_last());
        if before.contains(edges.last().label) {
            before
        } else {
            before.push(edges.last().label)
        }
    }
}

fn all_edge_labels(fg: &FlatGraph) -> (result: Vec<String>)
    ensures
        label_views(result@) == edge_labels_of(fg@.edges),
{
    let ghost edges = fg@.edges;
    let mut labels: Vec<String> = Vec::new();
    let mut i: usize = 0;
    assert(label_views(labels@) =~= edge_labels_of(edges.take(0)));
    while i < fg.edges.len()
        invariant
            edges == fg@.edges,
            edges.len() == fg.edges@.len(),
            i <= edges.len(),
            label_views(labels@) == edge_labels_of(edges.take(i as int)),
        decreases fg.edges.len() - i,
    {
        assert(edges.take(i + 1).drop_last() =~= edges.take(i as int));
        assert(edges[i as int] == fg.edges@[i as int]@);
        if !has_label_already(&labels, fg.edges[i].label.as_str()) {
            let ghost before = labels@;
            labels.push(fg.edges[i].label.as_str().to_owned());
            assert(label_views(labels@) =~= label_views(before).push(edges[i as int].label));
        }
        i = i + 1;
    }
    assert(edges.take(i as int) =~= edges);
    labels
}

/// A table: the label that it is for, and its text.
#[derive(Debug)]
pub struct CsvTable {
    pub label: String,
    pub text: String,
}

/// Whether a table is that of the vertices with a label.
pub open spec fn is_table_of_vertices<F: Fn(&ScalarValue) -> String>(
    data: FlatView,
    label: Seq<char>,
    float_text: F,
    table: CsvTable,
) -> bool {
    table.label@ == label && exists|lines: Seq<Seq<char>>| #[trigger]
        is_vertex_table(data, label, float_text, lines) && table.text@ == lines_text(lines)
}

/// Whether a table is that of the edges with a label, by id.
pub open spec fn is_table_of_edges<F: Fn(&ScalarValue) -> String>(
    data: FlatView,
    label: Seq<char>,
    float_text: F,
    table: CsvTable,
) -> bool {
    let ids = sorted(data.edges_labelled(label));
    table.label@ == label && exists|lines: Seq<Seq<char>>| #[trigger]
        is_edge_table(
            data,
            label,
            edges_with_ids(data, ids, ids.len() as int),
            float_text,
            lines,
        ) && table.text@ == lines_text(lines)
}

/// The tables of a data graph: first those of the vertex labels, then those of the edge labels.
pub fn csv_snapshot<F: Fn(&ScalarValue) -> String>(fg: &FlatGraph, float_text: &F) -> (result: Vec<
    CsvTable,
>)
    requires
        forall|value: &ScalarValue| #[trigger] float_text.requires((value,)),
    ensures
        ({
            let labels = labels_of(fg@.vertices);
            let edge_labels = edge_labels_of(fg@.edges);
            &&& result@.len() == labels.len() + edge_labels.len()
            &&& forall|i: int|
                #![trigger labels[i]]
                0 <= i < labels.len() ==> is_table_of_vertices(
                    fg@,
                    labels[i],
                    *float_text,
                    result@[i],
                )
            &&& forall|i: int|
                #![trigger edge_labels[i]]
                0 <= i < edge_labels.len() ==> is_table_of_edges(
                    fg@,
                    edge_labels[i],
                    *float_text,
                    result@[labels.len() + i],
                )
        }),
{
    let ghost data = fg@;
    let labels: Vec<String> = fg.all_labels();
    let ghost names = labels_of(data.vertices);
    let mut tables: Vec<CsvTable> = Vec::new();
    assert(names.len() == labels@.len());
    let mut i: usize = 0;
    while i < labels.len()
        invariant
            forall|value: &ScalarValue| #[trigger] float_text.requires((value,)),
            data == fg@,
            names == label_views(labels@),
            names.len() == labels@.len(),
            i <= labels@.len(),
            tables@.len() == i,
            forall|j: int|
                #![trigger names[j]]
                0 <= j < i ==> is_table_of_vertices(data, names[j], *float_text, tables@[j]),
        decreases labels.len() - i,
    {
        assert(names[i as int] == labels@[i as int]@);
        let ghost before = tables@;
        let text: String = write_vertex_csv(fg, labels[i].as_str(), float_text);
        let table = CsvTable { label: labels[i].as_str().to_owned(), text };
        assert(is_table_of_vertices(data, names[i as int], *float_text, table)) by {
            let lines = choose|lines: Seq<Seq<char>>| #[trigger]
                is_vertex_table(data, names[i as int], *float_text, lines) && text@ == lines_text(
                    lines,
                );
            assert(is_vertex_table(data, names[i as int], *float_text, lines));
            assert(table.text@ == text@);
        }
        tables.push(table);
        assert(forall|j: int| 0 <= j < i ==> tables@[j] == before[j]);
        i = i + 1;
    }
    let edge_labels: Vec<String> = all_edge_labels(fg);
    let ghost edge_names = edge_labels_of(data.edges);
    assert(edge_names.len() == edge_labels@.len());
    let mut k: usize = 0;
    while k < edge_labels.len()
        invariant
            forall|value: &ScalarValue| #[trigger] float_text.requires((value,)),
            data == fg@,
            edge_names == label_views(edge_labels@),
            edge_names.len() == edge_labels@.len(),
            k <= edge_labels@.len(),
            tables@.len() == names.len() + k,
            forall|j: int|
                #![trigger names[j]]
                0 <= j < names.len() ==> is_table_of_vertices(
                    data,
                    names[j],
                    *float_text,
                    tables@[j],
                ),
            forall|j: int|
                #![trigger edge_names[j]]
                0 <= j < k ==> is_table_of_edges(
                    data,
                    edge_names[j],
                    *float_text,
                    tables@[names.len() + j],
                ),
        decreases edge_labels.len() - k,
    {
        let ghost name = edge_names[k as int];
        assert(name == edge_labels@[k as int]@);
        let ghost before = tables@;
        let ids: Vec<EdgeId> = sort(fg.all_edge_ids_by_label(edge_labels[k].as_str()));
        let text: String = write_edge_csv(fg, edge_labels[k].as_str(), &ids, float_text);
        let table = CsvTable { label: edge_labels[k].as_str().to_owned(), text };
        assert(is_table_of_edges(data, name, *float_text, table)) by {
            let edges = edges_with_ids(data, ids@, ids@.len() as int);
            let lines = choose|lines: Seq<Seq<char>>| #[trigger]
                is_edge_table(data, name, edges, *float_text, lines) && text@ == lines_text(lines);
            assert(is_edge_table(data, name, edges, *float_text, lines));
            assert(table.text@ == text@);
        }
        tables.push(table);
        assert(forall|j: int| 0 <= j < names.len() + k ==> tables@[j] == before[j]);
        k = k + 1;
    }
    tables
}

proof fn lemma_doubled_shrinks(text: Seq<char>)
    ensures
        doubled(text).len() >= text.len(),
        doubled(text).len() == 0 <==> text.len() == 0,
    decreases text.len(),
{
    if text.len() > 0 {
        lemma_doubled_shrinks(text.drop_last());
    }
}

proof fn lemma_doubled_is_unique(a: Seq<char>, b: Seq<char>)
    requires
        doubled(a) == doubled(b),
    ensures
        a == b,
    decreases a.len(),
{
    lemma_doubled_shrinks(a);
    lemma_doubled_shrinks(b);
    if a.len() == 0 {
        assert(a =~= b);
    } else {
        let x = doubled(a);
        let p = doubled(a.drop_last());
        let q = doubled(b.drop_last());
        assert(x.last() == a.last());
        assert(x.last() == b.last());
        if a.last() == '"' {
            assert(p =~= x.take(x.len() - 2));
            assert(q =~= x.take(x.len() - 2));
        } else {
            assert(p =~= x.take(x.len() - 1));
            assert(q =~= x.take(x.len() - 1));
        }
        lemma_doubled_is_unique(a.drop_last(), b.drop_last());
        assert(a =~= a.drop_last().push(a.last()));
        assert(b =~= b.drop_last().push(b.last()));
    }
}

/// Different texts are different fields.
pub proof fn text_fields_are_unique(a: Seq<char>, b: Seq<char>)
    requires
        text_field(a) == text_field(b),
    ensures
        a == b,
{
    let x = text_field(a);
    if needs_quotes(a) && needs_quotes(b) {
        assert(doubled(a) =~= x.subrange(1, x.len() - 1));
        assert(doubled(b) =~= x.subrange(1, x.len() - 1));
        lemma_doubled_is_unique(a, b);
    } else if needs_quotes(a) {
        assert(b[0] == '"');
        assert(b.contains('"'));
    } else if needs_quotes(b) {
        assert(a[0] == '"');
        assert(a.contains('"'));
    }
}

/// Doubling the quotes of a text is doing so character by character: a quote becomes two, and any
/// other character stays.
pub proof fn quotes_are_doubled_one_by_one(a: Seq<char>, b: Seq<char>, c: char)
    ensures
        doubled(a + b) == doubled(a) + doubled(b),
        doubled(seq![c]) == (if c == '"' {
            seq!['"', '"']
        } else {
            seq![c]
        }),
        doubled(Seq::<char>::empty()) == Seq::<char>::empty(),
    decreases b.len(),
{
    if b.len() == 0 {
        assert(a + b =~= a);
    } else {
        quotes_are_doubled_one_by_one(a, b.drop_last(), c);
        assert((a + b).drop_last() =~= a + b.drop_last());
        assert((a + b).last() == b.last());
        assert(doubled(a + b) =~= doubled(a) + doubled(b));
    }
    assert(seq![c].drop_last() =~= Seq::<char>::empty());
    assert(doubled(seq![c].drop_last()) =~= Seq::<char>::empty());
}

/// A field is the text itself where this has no comma, no quote and no line break; otherwise it is
/// the text with its quotes doubled, between quotes.
pub proof fn fields_are_quoted_where_needed(text: Seq<char>)
    ensures
        (forall|i: int|
            #![trigger text[i]]
            0 <= i < text.len() ==> text[i] != ',' && text[i] != '"' && text[i] != '\n')
            ==> text_field(text) == text,
        (exists|i: int|
            #![trigger text[i]]
            0 <= i < text.len() && (text[i] == ',' || text[i] == '"' || text[i] == '\n'))
            ==> text_field(text) == seq!['"'] + doubled(text) + seq!['"'],
{
    if exists|i: int|
        #![trigger text[i]]
        0 <= i < text.len() && (text[i] == ',' || text[i] == '"' || text[i] == '\n') {
        let i = choose|i: int|
            #![trigger text[i]]
            0 <= i < text.len() && (text[i] == ',' || text[i] == '"' || text[i] == '\n');
        assert(text.contains(text[i]));
    }
}

/// A row goes on field by field, with a comma before each; lines go on line by line, with a line
/// break behind each.
pub proof fn rows_and_lines_go_on(
    start: Seq<char>,
    a: Seq<Seq<char>>,
    b: Seq<Seq<char>>,
    one: Seq<char>,
)
    ensures
        row_text(start, a + b) == row_text(row_text(start, a), b),
        row_text(start, seq![one]) == start + seq![','] + one,
        row_text(start, Seq::<Seq<char>>::empty()) == start,
        lines_text(a + b) == lines_text(a) + lines_text(b),
        lines_text(seq![one]) == one + seq!['\n'],
    decreases b.len(),
{
    reveal_strlit(",");
    reveal_strlit("\n");
    assert(","@ =~= seq![',']);
    assert("\n"@ =~= seq!['\n']);
    if b.len() == 0 {
        assert(a + b =~= a);
        assert(lines_text(a) + lines_text(b) =~= lines_text(a));
    } else {
        rows_and_lines_go_on(start, a, b.drop_last(), one);
        assert((a + b).drop_last() =~= a + b.drop_last());
        assert((a + b).last() == b.last());
        assert(lines_text(a + b) =~= lines_text(a) + lines_text(b));
    }
    let none = Seq::<Seq<char>>::empty();
    assert(seq![one].drop_last() =~= none);
    assert(row_text(start, seq![one].drop_last()) == start);
    assert(lines_text(seq![one].drop_last()) =~= Seq::<char>::empty());
    assert(lines_text(seq![one]) =~= one + seq!['\n']);
}

/// The edges with ids are those that are found, in the order of the ids.
pub proof fn edges_follow_their_ids(data: FlatView, ids: Seq<EdgeId>, n: int) -> (at: Seq<int>)
    requires
        0 <= n <= ids.len(),
    ensures
        lists_places(at, n, |k: int| data.edge(ids[k]) is Some),
        edges_with_ids(data, ids, n) == at.map_values(|k: int| data.edge(ids[k])->0),
    decreases n,
{
    let wanted = |k: int| data.edge(ids[k]) is Some;
    let found = |k: int| data.edge(ids[k])->0;
    if n == 0 {
        let at = Seq::<int>::empty();
        assert(at.map_values(found) =~= edges_with_ids(data, ids, n));
        at
    } else {
        let before = edges_follow_their_ids(data, ids, n - 1);
        lemma_one_more_place(before, n, wanted);
        let at = if wanted(n - 1) {
            before.push(n - 1)
        } else {
            before
        };
        assert(at.map_values(found) =~= edges_with_ids(data, ids, n));
        at
    }
}

/// The labels of edges are those that an edge has, none of them twice.
pub proof fn edge_labels_are_listed_once(edges: Seq<FlatEdgeView>)
    ensures
        edge_labels_of(edges).no_duplicates(),
        forall|label: Seq<char>|
            #![trigger edge_labels_of(edges).contains(label)]
            edge_labels_of(edges).contains(label) <==> exists|p: int|
                0 <= p < edges.len() && (#[trigger] edges[p]).label == label,
    decreases edges.len(),
{
    if edges.len() > 0 {
        let fewer = edges.drop_last();
        let before = edge_labels_of(fewer);
        let all = edge_labels_of(edges);
        edge_labels_are_listed_once(fewer);
        assert forall|label: Seq<char>|
            #![trigger all.contains(label)]
            all.contains(label) <==> exists|p: int|
                0 <= p < edges.len() && (#[trigger] edges[p]).label == label by {
            if all.contains(label) {
                if before.contains(label) {
                    let p = choose|p: int|
                        0 <= p < fewer.len() && (#[trigger] fewer[p]).label == label;
                    assert(edges[p].label == label);
                } else {
                    assert(edges[edges.len() - 1].label == label);
                }
            }
            if exists|p: int| 0 <= p < edges.len() && (#[trigger] edges[p]).label == label {
                let p = choose|p: int|
                    0 <= p < edges.len() && (#[trigger] edges[p]).label == label;
                if p < fewer.len() {
                    assert(fewer[p].label == label);
                    assert(before.contains(label));
                    let k = choose|k: int| 0 <= k < before.len() && before[k] == label;
                    assert(all[k] == label);
                } else if !before.contains(label) {
                    assert(all[all.len() - 1] == label);
                }
            }
        }
    }
}

} // verus!
