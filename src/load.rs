//! Building the tag index from the rows of the tabular export: the header
//! names the columns, each of the export's columns must stand in it once, and
//! every data row gives a title and its tags.
use vstd::prelude::*;
use vstd::string::*;
use crate::index::TagIndex;
use crate::tags::{deserialize_tags, string_views, tag_list};

verus! {

#[verifier::external_type_specification]
#[verifier::external_body]
pub struct ExCsvError(csv::Error);

/// The records that the `csv` crate reads from `data`, each as its fields,
/// or `None` where it reports an error.
pub uninterp spec fn csv_records(data: Seq<u8>) -> Option<Seq<Seq<Seq<char>>>>;

/// The fields of each row.
pub open spec fn rows_view(rows: Seq<Vec<String>>) -> Seq<Seq<Seq<char>>> {
    rows.map_values(|r: Vec<String>| string_views(r@))
}

/// Relies on `csv::ReaderBuilder` with `has_headers(false)` and
/// `StringRecordsIter`: every record of `data`, the header row first, each as
/// its fields, or the first error that the reader reports.
#[verifier::external_body]
fn read_csv_records(data: &[u8]) -> (r: Result<Vec<Vec<String>>, csv::Error>)
    ensures
        match r {
            Ok(rows) => csv_records(data@) == Some(rows_view(rows@)),
            Err(_) => csv_records(data@) is None,
        },
{
    let mut reader = csv::ReaderBuilder::new().has_headers(false).from_reader(data);
    let mut rows = Vec::new();
    for record in reader.records() {
        rows.push(record?.iter().map(String::from).collect());
    }
    Ok(rows)
}

/// Why the tag index could not be built.
#[derive(Debug)]
pub enum LoadError {
    /// The export is not well-formed delimited text.
    Malformed(csv::Error),
    /// A column of the export is not in the header.
    MissingColumn(String),
    /// A column of the export is in the header more than once.
    DuplicateColumn(String),
    /// A data row (counted from 1) ends before the title or tags column.
    MissingField { row: usize },
}

/// What a `LoadError` stands for.
pub enum LoadFault {
    Malformed,
    MissingColumn(Seq<char>),
    DuplicateColumn(Seq<char>),
    MissingField(int),
}

impl View for LoadError {
    type V = LoadFault;

    open spec fn view(&self) -> LoadFault {
        match self {
            LoadError::Malformed(_) => LoadFault::Malformed,
            LoadError::MissingColumn(c) => LoadFault::MissingColumn(c@),
            LoadError::DuplicateColumn(c) => LoadFault::DuplicateColumn(c@),
            LoadError::MissingField { row } => LoadFault::MissingField(*row as int),
        }
    }
}

/// The columns that the export must have.
pub open spec fn required_columns() -> Seq<Seq<char>> {
    seq![
        "Title"@,
        "Authors"@,
        "Abstract"@,
        "Published Year"@,
        "Published Month"@,
        "Journal"@,
        "Volume"@,
        "Issue"@,
        "Pages"@,
        "Accession Number"@,
        "DOI"@,
        "Ref"@,
        "Covidence #"@,
        "Study"@,
        "Notes"@,
        "Tags"@,
    ]
}

pub open spec fn title_column() -> Seq<char> {
    required_columns()[0]
}

pub open spec fn tags_column() -> Seq<char> {
    required_columns()[15]
}

/// How many times `name` stands in `header`.
pub open spec fn count_in(header: Seq<Seq<char>>, name: Seq<char>) -> nat
    decreases header.len(),
{
    if header.len() == 0 {
        0
    } else {
        (if header[0] == name { 1nat } else { 0nat }) + count_in(header.drop_first(), name)
    }
}

/// Where `name` first stands in `header` (its length if nowhere).
pub open spec fn position(header: Seq<Seq<char>>, name: Seq<char>) -> int
    decreases header.len(),
{
    if header.len() == 0 {
        0
    } else if header[0] == name {
        0
    } else {
        1 + position(header.drop_first(), name)
    }
}

/// The first of `names` that `header` does not hold exactly once, and
/// whether it is missing (rather than repeated).
pub open spec fn first_bad(header: Seq<Seq<char>>, names: Seq<Seq<char>>) -> Option<
    (Seq<char>, bool),
>
    decreases names.len(),
{
    if names.len() == 0 {
        None
    } else if count_in(header, names[0]) == 1 {
        first_bad(header, names.drop_first())
    } else {
        Some((names[0], count_in(header, names[0]) == 0))
    }
}

/// The first row with at most `m` fields (the number of rows if none).
pub open spec fn first_short(rows: Seq<Seq<Seq<char>>>, m: int) -> int
    decreases rows.len(),
{
    if rows.len() == 0 {
        0
    } else if rows[0].len() <= m {
        0
    } else {
        1 + first_short(rows.drop_first(), m)
    }
}

/// The index that data rows give, the title in column `t` and the tags in
/// column `g`; a later row replaces an earlier one of the same title.
pub open spec fn index_of_rows(rows: Seq<Seq<Seq<char>>>, t: int, g: int) -> Map<
    Seq<char>,
    Seq<Seq<char>>,
>
    decreases rows.len(),
{
    if rows.len() == 0 {
        Map::empty()
    } else {
        index_of_rows(rows.drop_last(), t, g).insert(rows.last()[t], tag_list(rows.last()[g]))
    }
}

/// The index that the rows of an export give (its header row first), or
/// why they give none. An export without data rows gives an empty index.
pub open spec fn loaded(rows: Seq<Seq<Seq<char>>>) -> Result<Map<Seq<char>, Seq<Seq<char>>>, LoadFault> {
    if rows.len() <= 1 {
        Ok(Map::empty())
    } else {
        let header = rows[0];
        let data = rows.drop_first();
        match first_bad(header, required_columns()) {
            Some((name, true)) => Err(LoadFault::MissingColumn(name)),
            Some((name, false)) => Err(LoadFault::DuplicateColumn(name)),
            None => {
                let t = position(header, title_column());
                let g = position(header, tags_column());
                let m = if t < g { g } else { t };
                let k = first_short(data, m);
                if k < data.len() {
                    Err(LoadFault::MissingField(k + 1))
                } else {
                    Ok(index_of_rows(data, t, g))
                }
            },
        }
    }
}

/// The columns that the export must have, in order.
fn required_column_names() -> (r: Vec<&'static str>)
    ensures
        r@.map_values(|s: &str| s@) == required_columns(),
{
    let r = vec![
        "Title",
        "Authors",
        "Abstract",
        "Published Year",
        "Published Month",
        "Journal",
        "Volume",
        "Issue",
        "Pages",
        "Accession Number",
        "DOI",
        "Ref",
        "Covidence #",
        "Study",
        "Notes",
        "Tags",
    ];
    assert(r@.map_values(|s: &str| s@) =~= required_columns());
    r
}

/// How many times `name` stands in `header`, and where it first stands.
pub fn find_column(header: &Vec<String>, name: &str) -> (r: (usize, usize))
    ensures
        r.0 == count_in(string_views(header@), name@),
        r.0 > 0 ==> r.1 == position(string_views(header@), name@),
        r.0 > 0 ==> r.1 < header@.len() && header@[r.1 as int]@ == name@,
{
    let ghost h = string_views(header@);
    let wanted = name.to_owned();
    let mut count: usize = 0;
    let mut first: usize = 0;
    let mut i: usize = 0;
    assert(h.skip(0) =~= h);
    while i < header.len()
        invariant
            h == string_views(header@),
            wanted@ == name@,
            i <= header@.len(),
            count <= i,
            count + count_in(h.skip(i as int), name@) == count_in(h, name@),
            count == 0 ==> position(h, name@) == i + position(h.skip(i as int), name@),
            count > 0 ==> first == position(h, name@) && first < header@.len() && h[first as int]
                == name@,
        decreases header@.len() - i,
    {
        assert(h.skip(i as int).drop_first() =~= h.skip(i + 1));
        assert(h.skip(i as int)[0] == h[i as int]);
        if header[i] == wanted {
            if count == 0 {
                first = i;
            }
            count += 1;
        }
        i += 1;
    }
    (count, first)
}

/// Once a run of `names` holds each exactly once, `first_bad` looks past it.
proof fn lemma_first_bad_skip(header: Seq<Seq<char>>, names: Seq<Seq<char>>, k: int)
    requires
        0 <= k < names.len(),
        count_in(header, names[k]) == 1,
    ensures
        first_bad(header, names.skip(k)) == first_bad(header, names.skip(k + 1)),
{
    assert(names.skip(k).drop_first() =~= names.skip(k + 1));
}

impl TagIndex {
    /// Builds the index from the rows of an export, its header row first.
    pub fn from_rows(rows: &Vec<Vec<String>>) -> (r: Result<TagIndex, LoadError>)
        ensures
            match r {
                Ok(idx) => loaded(rows_view(rows@)) == Ok::<
                    Map<Seq<char>, Seq<Seq<char>>>,
                    LoadFault,
                >(idx@),
                Err(e) => loaded(rows_view(rows@)) == Err::<
                    Map<Seq<char>, Seq<Seq<char>>>,
                    LoadFault,
                >(e@),
            },
    {
        let ghost rv = rows_view(rows@);
        if rows.len() <= 1 {
            return Ok(TagIndex::new());
        }
        let header = &rows[0];
        let ghost hv = rv[0];
        assert(hv == string_views(header@));
        let names = required_column_names();
        let ghost req = required_columns();
        assert(req.skip(0) =~= req);
        let mut k: usize = 0;
        while k < names.len()
            invariant
                names@.map_values(|s: &str| s@) == req,
                req == required_columns(),
                rv == rows_view(rows@),
                rows@.len() > 1,
                hv == rv[0],
                hv == string_views(header@),
                k <= names@.len(),
                first_bad(hv, req) == first_bad(hv, req.skip(k as int)),
                forall|j: int| 0 <= j < k ==> count_in(hv, #[trigger] req[j]) == 1,
            decreases names@.len() - k,
        {
            assert(names@[k as int]@ == req[k as int]);
            let (count, _) = find_column(header, names[k]);
            assert(req.skip(k as int)[0] == req[k as int]);
            assert(req.skip(k as int).len() > 0);
            assert(count != 1 ==> first_bad(hv, req.skip(k as int)) == Some(
                (req[k as int], count == 0),
            ));
            if count == 0 {
                return Err(LoadError::MissingColumn(names[k].to_owned()));
            }
            if count > 1 {
                return Err(LoadError::DuplicateColumn(names[k].to_owned()));
            }
            proof {
                lemma_first_bad_skip(hv, req, k as int);
            }
            k += 1;
        }
        assert(req.skip(k as int).len() == 0);
        assert(names@[0]@ == req[0]);
        assert(names@[15]@ == req[15]);
        let (_, t) = find_column(header, names[0]);
        let (_, g) = find_column(header, names[15]);
        let m = if t < g { g } else { t };
        let ghost data = rv.drop_first();
        assert(t == position(hv, title_column()));
        assert(g == position(hv, tags_column()));
        let mut i: usize = 1;
        assert(data.skip(0) =~= data);
        while i < rows.len()
            invariant
                rv == rows_view(rows@),
                data == rv.drop_first(),
                1 <= i <= rows@.len(),
                hv == rv[0],
                first_bad(hv, required_columns()) is None,
                t == position(hv, title_column()),
                g == position(hv, tags_column()),
                m == (if t < g { g } else { t }),
                first_short(data, m as int) == (i - 1) + first_short(data.skip(i - 1), m as int),
                forall|j: int| 1 <= j < i ==> (#[trigger] rows@[j])@.len() > m,
            decreases rows@.len() - i,
        {
            assert(data.skip(i - 1).drop_first() =~= data.skip(i as int));
            assert(data.skip(i - 1)[0] == rv[i as int]);
            assert(rv[i as int].len() == rows@[i as int]@.len());
            assert(data.skip(i - 1).len() > 0);
            if rows[i].len() <= m {
                return Err(LoadError::MissingField { row: i });
            }
            i += 1;
        }
        let mut idx = TagIndex::new();
        let mut i: usize = 1;
        assert(data.take(0) =~= Seq::<Seq<Seq<char>>>::empty());
        while i < rows.len()
            invariant
                rv == rows_view(rows@),
                data == rv.drop_first(),
                1 <= i <= rows@.len(),
                forall|j: int| 1 <= j < rows@.len() ==> (#[trigger] rows@[j])@.len() > m,
                t <= m,
                g <= m,
                idx@ == index_of_rows(data.take(i - 1), t as int, g as int),
            decreases rows@.len() - i,
        {
            assert(data.take(i as int).drop_last() =~= data.take(i - 1));
            assert(data.take(i as int).last() == rv[i as int]);
            let title = rows[i][t].clone();
            let tags = deserialize_tags(rows[i][g].as_str());
            idx.insert(title, tags);
            i += 1;
        }
        assert(data.take(i - 1) =~= data);
        Ok(idx)
    }

    /// Reads the export from `data` and builds the index from its rows.
    pub fn from_csv(data: &[u8]) -> (r: Result<TagIndex, LoadError>)
        ensures
            match csv_records(data@) {
                None => r matches Err(LoadError::Malformed(_)),
                Some(rows) => match r {
                    Ok(idx) => loaded(rows) == Ok::<
                        Map<Seq<char>, Seq<Seq<char>>>,
                        LoadFault,
                    >(idx@),
                    Err(e) => loaded(rows) == Err::<Map<Seq<char>, Seq<Seq<char>>>, LoadFault>(e@),
                },
            },
    {
        match read_csv_records(data) {
            Err(e) => Err(LoadError::Malformed(e)),
            Ok(rows) => TagIndex::from_rows(&rows),
        }
    }
}

} // verus!
