use vstd::prelude::*;
use crate::seqs::lemma_take_push;
use crate::stats::{get_feature_data, intersection, is_joint_table, views, FeatureStats, JointTerm};

verus! {

/// What can go wrong when a table of samples is read or queried.
#[derive(Clone, Copy, Debug, PartialEq, Eq)]
pub enum MrmrError {
    /// The table holds no sample row.
    EmptyDataset,
    /// The class column is not among the columns.
    MissingFeature,
    /// Two columns carry the same name.
    DuplicateFeature,
    /// A row holds more or fewer fields than there are columns.
    DataLengthMismatch,
    /// Zero features were asked for.
    InvalidFeatureCount,
    /// A name that is no column of the dataset was looked up.
    UnknownFeature,
    /// The input is not well-formed CSV text.
    MalformedInput,
}

/// The fields of each row, as character sequences.
pub open spec fn rows_view(rows: Seq<Vec<String>>) -> Seq<Seq<Seq<char>>> {
    rows.map_values(|r: Vec<String>| views(r@))
}

/// Column `k` of a table given row by row.
pub open spec fn column_of(rows: Seq<Seq<Seq<char>>>, k: int) -> Seq<Seq<char>> {
    Seq::new(rows.len(), |i: int| rows[i][k])
}

/// The positions of the header whose name is not `class`, in order.
pub open spec fn candidate_columns(header: Seq<Seq<char>>, class: Seq<char>) -> Seq<int>
    decreases header.len(),
{
    if header.len() == 0 {
        Seq::empty()
    } else {
        let p = candidate_columns(header.drop_last(), class);
        if header.last() != class {
            p.push(header.len() - 1)
        } else {
            p
        }
    }
}

/// The first structural defect of a table, checked in this order: the class
/// column is missing, a column name repeats, there is no row, a row has the
/// wrong number of fields.
pub open spec fn table_error(header: Seq<Seq<char>>, rows: Seq<Seq<Seq<char>>>, class: Seq<char>) -> Option<MrmrError> {
    if !header.contains(class) {
        Some(MrmrError::MissingFeature)
    } else if !header.no_duplicates() {
        Some(MrmrError::DuplicateFeature)
    } else if rows.len() == 0 {
        Some(MrmrError::EmptyDataset)
    } else if exists|i: int| 0 <= i < rows.len() && #[trigger] rows[i].len() != header.len() {
        Some(MrmrError::DataLengthMismatch)
    } else {
        None
    }
}

/// The abstract content of a dataset: the candidate feature names, the class
/// name, and one statistics table per column, the candidates first in header
/// order and the class column last.
pub struct DatasetView {
    pub features: Seq<Seq<char>>,
    pub class_name: Seq<char>,
    pub stats: Seq<FeatureStats>,
    pub datasize: nat,
}

/// A validated table of categorical samples with the statistics of each column.
pub struct Dataset {
    features: Vec<String>,
    class_name: String,
    stats: Vec<FeatureStats>,
    datasize: usize,
}

impl View for Dataset {
    type V = DatasetView;

    closed spec fn view(&self) -> DatasetView {
        DatasetView {
            features: views(self.features@),
            class_name: self.class_name@,
            stats: self.stats@,
            datasize: self.datasize as nat,
        }
    }
}

/// Whether two entries of `v` are equal.
fn has_duplicates(v: &Vec<String>) -> (r: bool)
    ensures
        r == !views(v@).no_duplicates(),
{
    let n = v.len();
    let mut i: usize = 0;
    while i < n
        invariant
            n == v@.len(),
            i <= n,
            forall|p: int, q: int| 0 <= p < q < i ==> v@[p]@ != v@[q]@,
        decreases n - i,
    {
        let mut j: usize = 0;
        while j < i
            invariant
                n == v@.len(),
                j <= i < n,
                forall|p: int| 0 <= p < j ==> v@[p]@ != v@[i as int]@,
            decreases i - j,
        {
            if v[j] == v[i] {
                assert(views(v@)[j as int] == views(v@)[i as int]);
                return true;
            }
            j += 1;
        }
        i += 1;
    }
    assert forall|p: int, q: int| 0 <= p < views(v@).len() && 0 <= q < views(v@).len() && p != q implies views(v@)[p] != views(v@)[q] by {
        if p < q {
            assert(v@[p]@ != v@[q]@);
        } else {
            assert(v@[q]@ != v@[p]@);
        }
    }
    false
}

/// The position of `x` in `v`, if it is there.
fn find_name(v: &Vec<String>, x: &String) -> (r: Option<usize>)
    ensures
        match r {
            Some(k) => k < v@.len() && v@[k as int]@ == x@,
            None => !views(v@).contains(x@),
        },
{
    let mut k: usize = 0;
    while k < v.len()
        invariant
            k <= v@.len(),
            forall|m: int| 0 <= m < k ==> v@[m]@ != x@,
        decreases v@.len() - k,
    {
        if v[k] == *x {
            return Some(k);
        }
        k += 1;
    }
    assert(!views(v@).contains(x@)) by {
        if views(v@).contains(x@) {
            let m = choose|m: int| 0 <= m < views(v@).len() && views(v@)[m] == x@;
            assert(v@[m]@ == x@);
        }
    }
    None
}

/// Column `k` of a table given row by row.
pub fn get_features_values(rows: &Vec<Vec<String>>, k: usize) -> (r: Vec<String>)
    requires
        forall|i: int| 0 <= i < rows@.len() ==> k < (#[trigger] rows@[i])@.len(),
    ensures
        views(r@) == column_of(rows_view(rows@), k as int),
{
    let mut col: Vec<String> = Vec::new();
    let mut i: usize = 0;
    while i < rows.len()
        invariant
            i <= rows@.len(),
            forall|m: int| 0 <= m < rows@.len() ==> k < (#[trigger] rows@[m])@.len(),
            col@.len() == i,
            forall|m: int| 0 <= m < i ==> (#[trigger] col@[m])@ == rows@[m]@[k as int]@,
        decreases rows@.len() - i,
    {
        col.push(rows[i][k].clone());
        i += 1;
    }
    assert(views(col@) =~= column_of(rows_view(rows@), k as int));
    col
}

/// The candidate positions are increasing, in range, and never name the class.
proof fn lemma_candidate_columns(header: Seq<Seq<char>>, class: Seq<char>)
    ensures
        forall|i: int|
            0 <= i < candidate_columns(header, class).len() ==> {
                &&& 0 <= #[trigger] candidate_columns(header, class)[i] < header.len()
                &&& header[candidate_columns(header, class)[i]] != class
            },
        forall|i: int, j: int|
            0 <= i < j < candidate_columns(header, class).len() ==> #[trigger] candidate_columns(header, class)[i]
                < #[trigger] candidate_columns(header, class)[j],
        forall|k: int|
            0 <= k < header.len() && header[k] != class ==> #[trigger] candidate_columns(header, class).contains(k),
    decreases header.len(),
{
    if header.len() > 0 {
        let h = header.drop_last();
        lemma_candidate_columns(h, class);
        let p = candidate_columns(h, class);
        assert forall|k: int| 0 <= k < header.len() && header[k] != class implies #[trigger] candidate_columns(header, class).contains(k) by {
            if k < header.len() - 1 {
                assert(h[k] == header[k]);
                assert(p.contains(k));
                let m = choose|m: int| 0 <= m < p.len() && p[m] == k;
                assert(candidate_columns(header, class)[m] == k);
            } else {
                assert(candidate_columns(header, class)[p.len() as int] == k);
            }
        }
    }
}

impl Dataset {
    /// Whether the view is that of a validated dataset: one table per candidate
    /// and one for the class, all over the same positive number of rows,
    /// candidate names distinct and different from the class name.
    pub open spec fn wf(&self) -> bool {
        &&& self@.stats.len() == self@.features.len() + 1
        &&& self@.datasize > 0
        &&& forall|c: int|
            0 <= c < self@.stats.len() ==> (#[trigger] self@.stats[c]).wf() && self@.stats[c].codes@.len()
                == self@.datasize
        &&& self@.features.no_duplicates()
        &&& !self@.features.contains(self@.class_name)
    }

    /// Validates a table given as a header and rows, and builds the value and
    /// frequency table of every column. The candidates are the columns other
    /// than `class`, in header order.
    pub fn new(header: &Vec<String>, rows: &Vec<Vec<String>>, class: &String) -> (r: Result<Dataset, MrmrError>)
        ensures
            match r {
                Err(e) => table_error(views(header@), rows_view(rows@), class@) == Some(e),
                Ok(d) => {
                    let cand = candidate_columns(views(header@), class@);
                    &&& table_error(views(header@), rows_view(rows@), class@) is None
                    &&& d.wf()
                    &&& d@.class_name == class@
                    &&& d@.datasize == rows@.len()
                    &&& d@.features == cand.map_values(|k: int| views(header@)[k])
                    &&& forall|i: int|
                        0 <= i < cand.len() ==> (#[trigger] d@.stats[i]).describes(
                            column_of(rows_view(rows@), cand[i]),
                        )
                    &&& forall|k: int|
                        0 <= k < header@.len() && header@[k]@ == class@ ==> d@.stats[cand.len() as int].describes(
                            column_of(rows_view(rows@), k),
                        )
                },
            },
    {
        let ghost h = views(header@);
        let ghost rv = rows_view(rows@);
        let class_pos = match find_name(header, class) {
            None => {
                return Err(MrmrError::MissingFeature);
            },
            Some(k) => k,
        };
        assert(h[class_pos as int] == class@);
        if has_duplicates(header) {
            return Err(MrmrError::DuplicateFeature);
        }
        if rows.len() == 0 {
            return Err(MrmrError::EmptyDataset);
        }
        let width = header.len();
        let mut i: usize = 0;
        while i < rows.len()
            invariant
                width == header@.len(),
                h == views(header@),
                h.contains(class@),
                h.no_duplicates(),
                rows@.len() > 0,
                i <= rows@.len(),
                rv == rows_view(rows@),
                forall|m: int| 0 <= m < i ==> (#[trigger] rows@[m])@.len() == width,
            decreases rows@.len() - i,
        {
            if rows[i].len() != width {
                assert(rv[i as int] == views(rows@[i as int]@));
                assert(rv[i as int].len() != h.len());

                return Err(MrmrError::DataLengthMismatch);
            }
            i += 1;
        }
        assert(!exists|m: int| 0 <= m < rv.len() && #[trigger] rv[m].len() != h.len()) by {
            assert forall|m: int| 0 <= m < rv.len() implies #[trigger] rv[m].len() == h.len() by {
                assert(rows@[m]@.len() == width);
                assert(rv[m] == views(rows@[m]@));
            }
        }
        let mut features: Vec<String> = Vec::new();
        let mut stats: Vec<FeatureStats> = Vec::new();
        let ghost mut cols: Seq<int> = Seq::empty();
        let mut j: usize = 0;
        while j < width
            invariant
                width == header@.len(),
                h == views(header@),
                h.contains(class@),
                h.no_duplicates(),
                class_pos < width,
                h[class_pos as int] == class@,
                rv == rows_view(rows@),
                rows@.len() > 0,
                forall|m: int| 0 <= m < rows@.len() ==> (#[trigger] rows@[m])@.len() == width,
                j <= width,
                cols == candidate_columns(h.take(j as int), class@),
                features@.len() == cols.len(),
                stats@.len() == cols.len(),
                forall|m: int| 0 <= m < cols.len() ==> (#[trigger] features@[m])@ == h[cols[m]],
                forall|m: int| 0 <= m < cols.len() ==> (#[trigger] stats@[m]).describes(column_of(rv, cols[m])),
            decreases width - j,
        {
            proof {
                lemma_take_push(h, j as int);
            }
            if header[j] != *class {
                let col = get_features_values(rows, j);
                let st = get_feature_data(&col);
                let ghost old_features = features@;
                let ghost old_stats = stats@;
                features.push(header[j].clone());
                stats.push(st);
                proof {
                    assert(h[j as int] == header@[j as int]@);
                    assert(h.take(j + 1).last() != class@);
                    cols = cols.push(j as int);
                    assert forall|m: int| 0 <= m < cols.len() implies (#[trigger] features@[m])@ == h[cols[m]] by {
                        if m < cols.len() - 1 {
                            assert(features@[m] == old_features[m]);
                        }
                    }
                    assert forall|m: int| 0 <= m < cols.len() implies (#[trigger] stats@[m]).describes(
                        column_of(rv, cols[m]),
                    ) by {
                        if m < cols.len() - 1 {
                            assert(stats@[m] == old_stats[m]);
                        }
                    }
                }
            } else {
                assert(h[j as int] == header@[j as int]@);
            }
            j += 1;
        }
        let col = get_features_values(rows, class_pos);
        let st = get_feature_data(&col);
        let ghost cand_stats = stats@;
        stats.push(st);
        proof {
            assert(h.take(width as int) =~= h);
            assert forall|c: int| 0 <= c < cols.len() implies (#[trigger] stats@[c]).describes(column_of(rv, cols[c])) by {
                assert(stats@[c] == cand_stats[c]);
            }
            assert(stats@[cols.len() as int] == st);
        }
        let d = Dataset { features, class_name: class.clone(), stats, datasize: rows.len() };
        proof {
            assert(d@.stats == stats@);
            assert(d@.datasize == rv.len());
            lemma_candidate_columns(h, class@);
            assert(d@.features =~= cols.map_values(|k: int| h[k]));
            assert forall|c: int| 0 <= c < d@.stats.len() implies (#[trigger] d@.stats[c]).wf() && d@.stats[c].codes@.len() == d@.datasize by {
                if c < cols.len() {
                    lemma_describes_wf(d@.stats[c], column_of(rv, cols[c]));
                } else {
                    lemma_describes_wf(d@.stats[c], column_of(rv, class_pos as int));
                }
            }
            assert forall|p: int, q: int| 0 <= p < d@.features.len() && 0 <= q < d@.features.len() && p != q implies d@.features[p] != d@.features[q] by {
                assert(d@.features[p] == h[cols[p]]);
                assert(d@.features[q] == h[cols[q]]);
                if p < q {
                    assert(cols[p] < cols[q]);
                } else {
                    assert(cols[q] < cols[p]);
                }
            }
            assert(!d@.features.contains(class@)) by {
                if d@.features.contains(class@) {
                    let m = choose|m: int| 0 <= m < d@.features.len() && d@.features[m] == class@;
                    assert(h[cols[m]] != class@);
                }
            }
            assert forall|k: int| 0 <= k < header@.len() && header@[k]@ == class@ implies k == class_pos by {
                assert(h[k] == h[class_pos as int]);
            }
        }
        Ok(d)
    }
}

impl Dataset {
    /// Reads a dataset from CSV text whose first record names the columns.
    pub fn from_csv(bytes: &[u8], class: &String) -> (r: Result<Dataset, MrmrError>)
        ensures
            match csv_records(bytes@) {
                None => r == Err::<Dataset, MrmrError>(MrmrError::MalformedInput),
                Some(recs) => {
                    let header = if recs.len() == 0 {
                        Seq::empty()
                    } else {
                        recs[0]
                    };
                    let rows = if recs.len() == 0 {
                        Seq::empty()
                    } else {
                        recs.drop_first()
                    };
                    match r {
                        Err(e) => table_error(header, rows, class@) == Some(e),
                        Ok(d) => {
                            &&& table_error(header, rows, class@) is None
                            &&& d.wf()
                            &&& d@.class_name == class@
                            &&& d@.datasize == rows.len()
                            &&& d@.features == candidate_columns(header, class@).map_values(|k: int| header[k])
                            &&& forall|i: int|
                                0 <= i < candidate_columns(header, class@).len() ==> (#[trigger] d@.stats[i]).describes(
                                    column_of(rows, candidate_columns(header, class@)[i]),
                                )
                            &&& forall|k: int|
                                0 <= k < header.len() && header[k] == class@ ==> d@.stats[d@.features.len() as int].describes(
                                    column_of(rows, k),
                                )
                        },
                    }
                },
            },
    {
        match read_records(bytes) {
            Err(_) => Err(MrmrError::MalformedInput),
            Ok(mut records) => {
                if records.len() == 0 {
                    let header: Vec<String> = Vec::new();
                    let r = Dataset::new(&header, &records, class);
                    proof {
                        assert(views(header@) =~= Seq::empty());
                        assert(rows_view(records@) =~= Seq::empty());
                    }
                    r
                } else {
                    let ghost recs = records@;
                    let header = records.remove(0);
                    proof {
                        assert(rows_view(records@) =~= rows_view(recs).drop_first());
                        assert(views(header@) == rows_view(recs)[0]);
                    }
                    Dataset::new(&header, &records, class)
                }
            },
        }
    }

    /// The candidate feature names, in header order.
    pub fn features(&self) -> (r: &Vec<String>)
        ensures
            views(r@) == self@.features,
    {
        &self.features
    }

    /// The name of the class column.
    pub fn class_name(&self) -> (r: &String)
        ensures
            r@ == self@.class_name,
    {
        &self.class_name
    }

    /// The number of sample rows.
    pub fn datasize(&self) -> (r: usize)
        ensures
            r == self@.datasize,
    {
        self.datasize
    }

    /// The number of candidate features; it is also the column index of the class.
    pub fn num_features(&self) -> (r: usize)
        ensures
            r == self@.features.len(),
    {
        self.features.len()
    }

    /// The statistics of column `c`: a candidate for `c` below the number of
    /// candidates, the class for `c` equal to it.
    pub fn stats(&self, c: usize) -> (r: &FeatureStats)
        requires
            c < self@.stats.len(),
        ensures
            *r == self@.stats[c as int],
    {
        &self.stats[c]
    }

    /// The column index of a name: its position among the candidates, or the
    /// number of candidates for the class.
    pub fn column_index(&self, name: &String) -> (r: Result<usize, MrmrError>)
        requires
            self.wf(),
        ensures
            match r {
                Ok(c) => {
                    ||| c < self@.features.len() && self@.features[c as int] == name@
                    ||| c == self@.features.len() && self@.class_name == name@
                },
                Err(e) => {
                    &&& e == MrmrError::UnknownFeature
                    &&& !self@.features.contains(name@)
                    &&& self@.class_name != name@
                },
            },
    {
        match find_name(&self.features, name) {
            Some(c) => Ok(c),
            None => {
                if self.class_name == *name {
                    Ok(self.features.len())
                } else {
                    Err(MrmrError::UnknownFeature)
                }
            },
        }
    }

    /// The joint table of columns `a` and `b`, the terms that their mutual
    /// information is summed over.
    pub fn joint_terms(&self, a: usize, b: usize) -> (r: Vec<JointTerm>)
        requires
            self.wf(),
            a < self@.stats.len(),
            b < self@.stats.len(),
        ensures
            is_joint_table(r@, self@.stats[a as int], self@.stats[b as int]),
    {
        intersection(&self.stats[a], &self.stats[b])
    }
}

/// The records that the csv crate reads from `bytes` with no header row and
/// records of any length, each as its fields; `None` where it reports an error.
pub uninterp spec fn csv_records(bytes: Seq<u8>) -> Option<Seq<Seq<Seq<char>>>>;

#[verifier::external_type_specification]
#[verifier::external_body]
pub struct ExCsvError(csv::Error);

/// Relies on csv::ReaderBuilder and csv::Reader::records: the records read
/// are a function of the bytes alone, and an error is reported the same way.
#[verifier::external_body]
fn read_records(bytes: &[u8]) -> (r: Result<Vec<Vec<String>>, csv::Error>)
    ensures
        match r {
            Ok(rows) => csv_records(bytes@) == Some(rows_view(rows@)),
            Err(_) => csv_records(bytes@) is None,
        },
{
    let mut reader = csv::ReaderBuilder::new().has_headers(false).flexible(true).from_reader(bytes);
    let mut rows: Vec<Vec<String>> = Vec::new();
    for record in reader.records() {
        rows.push(record?.iter().map(String::from).collect());
    }
    Ok(rows)
}

/// A table that describes some column is well formed.
proof fn lemma_describes_wf(st: FeatureStats, raw: Seq<Seq<char>>)
    requires
        st.describes(raw),
    ensures
        st.wf(),
        st.codes@.len() == raw.len(),
{
}

} // verus!
