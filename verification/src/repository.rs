//! A repository directory: its configuration, and the files found in it,
//! put in the order in which they are read.

use crate::index::Index;
use crate::index::IndexView;
use crate::order::lemma_stably_sorted_mapped;
use crate::order::mapped;
use crate::order::stable_sort;
use crate::order::stably_sorted;
use crate::order::unranked;
use crate::segment::Segment;
use crate::segment::SegmentView;
use crate::text::decimal;
use crate::text::decimal_behind;
use crate::text::number;
use crate::text::number_behind;
use vstd::prelude::*;
use vstd::string::StringExecFns;
use vstd::string::StringSliceAdditionalSpecFns;
use vstd::utf8::encode_utf8;

verus! {

/// One entry of the data directory of a repository: its name, whether it is
/// a directory, and the names of the files in it. The files of an entry
/// that is no bucket are not looked at.
#[derive(Debug, PartialEq, Eq)]
pub struct Bucket {
    pub name: String,
    pub is_dir: bool,
    pub files: Vec<String>,
}

/// The number of a bucket: that of a directory whose name spells one.
pub open spec fn bucket_number(name: Seq<char>, is_dir: bool) -> Option<u32> {
    if is_dir {
        decimal(encode_utf8(name))
    } else {
        None
    }
}

/// The segment that a file of a bucket is, if its name spells a number.
pub open spec fn file_segment(bucket: u32, dir: Seq<char>, file: Seq<char>) -> Option<SegmentView> {
    match decimal(encode_utf8(file)) {
        Some(id) => Some(SegmentView { id, bucket, path: dir + seq!['/'] + file }),
        None => None,
    }
}

/// The segments among the files of a bucket, as the files are listed.
pub open spec fn bucket_files(bucket: u32, dir: Seq<char>, files: Seq<String>) -> Seq<SegmentView>
    decreases files.len(),
{
    if files.len() == 0 {
        Seq::empty()
    } else {
        let front = bucket_files(bucket, dir, files.drop_last());
        match file_segment(bucket, dir, files.last()@) {
            Some(segment) => front.push(segment),
            None => front,
        }
    }
}

/// The segments of one entry of the data directory: none where the entry
/// is no bucket.
pub open spec fn bucket_segments(entry: Bucket) -> Seq<SegmentView> {
    match bucket_number(entry.name@, entry.is_dir) {
        Some(bucket) => bucket_files(bucket, entry.name@, entry.files@),
        None => Seq::empty(),
    }
}

/// The segments of a data directory, as they are listed.
pub open spec fn listed_segments(listing: Seq<Bucket>) -> Seq<SegmentView>
    decreases listing.len(),
{
    if listing.len() == 0 {
        Seq::empty()
    } else {
        listed_segments(listing.drop_last()) + bucket_segments(listing.last())
    }
}

/// Segments with their ranks.
pub open spec fn ranked_segments(segments: Seq<SegmentView>) -> Seq<(u64, SegmentView)> {
    segments.map_values(|s: SegmentView| (s.rank(), s))
}

/// The views of segments.
pub open spec fn segment_views(segments: Seq<Segment>) -> Seq<SegmentView> {
    segments.map_values(|s: Segment| s@)
}

/// The index file that a name stands for, if it is `index.` and a number.
pub open spec fn index_file(name: Seq<char>) -> Option<IndexView> {
    match decimal_behind(encode_utf8("index."@), encode_utf8(name)) {
        Some(transaction_id) => Some(IndexView { transaction_id, path: name }),
        None => None,
    }
}

/// The index files among the names, as the names are listed.
pub open spec fn listed_indices(names: Seq<String>) -> Seq<IndexView>
    decreases names.len(),
{
    if names.len() == 0 {
        Seq::empty()
    } else {
        let front = listed_indices(names.drop_last());
        match index_file(names.last()@) {
            Some(index) => front.push(index),
            None => front,
        }
    }
}

/// Index files with their ranks, the numbers of their transactions.
pub open spec fn ranked_indices(indices: Seq<IndexView>) -> Seq<(u64, IndexView)> {
    indices.map_values(|i: IndexView| (i.transaction_id as u64, i))
}

/// The views of index files.
pub open spec fn index_views(indices: Seq<Index>) -> Seq<IndexView> {
    indices.map_values(|i: Index| i@)
}

/// A hints file of a repository.
#[derive(Debug, PartialEq, Eq)]
pub struct Hint {
    /// The number behind `hints.` in the file's name.
    pub id: u32,
    /// The file's name.
    pub path: String,
}

/// A hints file as a mathematical value.
pub struct HintView {
    pub id: u32,
    pub path: Seq<char>,
}

impl View for Hint {
    type V = HintView;

    open spec fn view(&self) -> HintView {
        HintView { id: self.id, path: self.path@ }
    }
}

/// The hints file that a name stands for, if it is `hints.` and a number.
pub open spec fn hint_file(name: Seq<char>) -> Option<HintView> {
    match decimal_behind(encode_utf8("hints."@), encode_utf8(name)) {
        Some(id) => Some(HintView { id, path: name }),
        None => None,
    }
}

/// The hints files among the names, as the names are listed.
pub open spec fn listed_hints(names: Seq<String>) -> Seq<HintView>
    decreases names.len(),
{
    if names.len() == 0 {
        Seq::empty()
    } else {
        let front = listed_hints(names.drop_last());
        match hint_file(names.last()@) {
            Some(hint) => front.push(hint),
            None => front,
        }
    }
}

/// Why a repository could not be opened.
#[derive(Debug, PartialEq, Eq)]
pub enum ConfigError {
    /// The configuration is no INI text; the parser's words are kept.
    Unreadable(String),
    /// The configuration has no `id` in its section `repository`.
    MissingId,
}

/// What the INI parser finds in `text` under `key` in `section`: the
/// parser's complaint where the text is no INI text, else the value, if the
/// key is there and has one.
pub uninterp spec fn ini_value(text: Seq<char>, section: Seq<char>, key: Seq<char>) -> Result<
    Option<Seq<char>>,
    Seq<char>,
>;

/// The contents of a lookup result.
pub open spec fn lookup_view(found: Result<Option<String>, String>) -> Result<
    Option<Seq<char>>,
    Seq<char>,
> {
    match found {
        Ok(Some(value)) => Ok(Some(value@)),
        Ok(None) => Ok(None),
        Err(complaint) => Err(complaint@),
    }
}

/// `configparser::ini::Ini`: a parser made by `Ini::new`, with the crate's
/// defaults, is given `text` by `Ini::read`, and `Ini::get` looks `key` up
/// in `section`. What comes back depends on the three texts alone; the
/// contract gives it a name and says no more of it.
#[verifier::external_body]
fn ini_lookup(text: &str, section: &str, key: &str) -> (found: Result<Option<String>, String>)
    ensures
        lookup_view(found) == ini_value(text@, section@, key@),
{
    let mut ini = configparser::ini::Ini::new();
    match ini.read(text.to_string()) {
        Ok(_) => Ok(ini.get(section, key)),
        Err(complaint) => Err(complaint),
    }
}

/// The identifier that a lookup of `id` has found, or why there is none.
pub open spec fn id_found(found: Result<Option<Seq<char>>, Seq<char>>) -> Result<
    Seq<char>,
    ConfigErrorView,
> {
    match found {
        Ok(Some(id)) => Ok(id),
        Ok(None) => Err(ConfigErrorView::MissingId),
        Err(complaint) => Err(ConfigErrorView::Unreadable(complaint)),
    }
}

/// A configuration error as a mathematical value.
pub enum ConfigErrorView {
    Unreadable(Seq<char>),
    MissingId,
}

impl View for ConfigError {
    type V = ConfigErrorView;

    open spec fn view(&self) -> ConfigErrorView {
        match self {
            ConfigError::Unreadable(complaint) => ConfigErrorView::Unreadable(complaint@),
            ConfigError::MissingId => ConfigErrorView::MissingId,
        }
    }
}

/// The contents of the result of opening a repository.
pub open spec fn id_view(r: Result<String, ConfigError>) -> Result<Seq<char>, ConfigErrorView> {
    match r {
        Ok(id) => Ok(id@),
        Err(e) => Err(e@),
    }
}

/// The identifier of a repository from what the lookup of `id` in its
/// configuration gave: the value; `MissingId` where there is none;
/// `Unreadable` with the parser's complaint where the text was refused.
pub fn repository_id(found: Result<Option<String>, String>) -> (r: Result<String, ConfigError>)
    ensures
        id_view(r) == id_found(lookup_view(found)),
{
    match found {
        Ok(Some(id)) => Ok(id),
        Ok(None) => Err(ConfigError::MissingId),
        Err(complaint) => Err(ConfigError::Unreadable(complaint)),
    }
}

impl Bucket {
    /// The number of the bucket, if the entry is one: a directory whose
    /// name spells a number.
    pub fn number(&self) -> (r: Option<u32>)
        ensures
            r == bucket_number(self.name@, self.is_dir),
    {
        if self.is_dir {
            number(self.name.as_str())
        } else {
            None
        }
    }
}

/// A repository that has been opened.
#[derive(Debug, PartialEq, Eq)]
pub struct Repository {
    /// Where the repository is.
    pub path: String,
    /// The identifier that its configuration gives it.
    pub id: String,
}

impl Repository {
    /// Opens the repository at `path` whose file `config` holds the text
    /// `config`: its identifier is the `id` of the section `repository`.
    pub fn load(path: String, config: &str) -> (r: Result<Repository, ConfigError>)
        ensures
            match r {
                Ok(repository) => repository.path == path && Ok::<Seq<char>, ConfigErrorView>(
                    repository.id@,
                ) == id_found(ini_value(config@, "repository"@, "id"@)),
                Err(e) => Err::<Seq<char>, ConfigErrorView>(e@) == id_found(
                    ini_value(config@, "repository"@, "id"@),
                ),
            },
    {
        match repository_id(ini_lookup(config, "repository", "id")) {
            Ok(id) => Ok(Repository { path, id }),
            Err(e) => Err(e),
        }
    }

    /// The index files among the names of a repository directory, by
    /// ascending transaction, those of one transaction in the order in
    /// which they are listed.
    pub fn indices(names: &Vec<String>) -> (indices: Vec<Index>)
        ensures
            stably_sorted(
                ranked_indices(index_views(indices@)),
                ranked_indices(listed_indices(names@)),
            ),
    {
        let mut found: Vec<(u64, Index)> = Vec::new();
        let ghost view = |i: Index| i@;
        let mut n: usize = 0;
        assert(names@.take(0) =~= Seq::<String>::empty());
        assert(mapped(found@, view) =~= ranked_indices(listed_indices(names@.take(0))));
        while n < names.len()
            invariant
                n <= names@.len(),
                view == |i: Index| i@,
                mapped(found@, view) == ranked_indices(listed_indices(names@.take(n as int))),
            decreases names@.len() - n,
        {
            let name = &names[n];
            let ghost listed = listed_indices(names@.take(n as int));
            proof {
                assert(names@.take(n + 1).drop_last() =~= names@.take(n as int));
                assert(names@.take(n + 1).last() == *name);
            }
            match number_behind("index.", name.as_str()) {
                None => {},
                Some(transaction_id) => {
                    let index = Index { transaction_id, path: name.clone() };
                    let ghost old_found = found@;
                    found.push((transaction_id as u64, index));
                    proof {
                        let added = index@;
                        assert(mapped(found@, view) =~= mapped(old_found, view).push(
                            (added.transaction_id as u64, added),
                        ));
                        assert(ranked_indices(listed.push(added)) =~= ranked_indices(listed).push(
                            (added.transaction_id as u64, added),
                        ));
                    }
                },
            }
            n += 1;
        }
        assert(names@.take(names@.len() as int) =~= names@);
        let ghost listed = found@;
        let sorted = stable_sort(found);
        let ghost ordered = sorted@;
        let indices = unranked(sorted);
        proof {
            lemma_stably_sorted_mapped(ordered, listed, view);
            assert(mapped(ordered, view) =~= ranked_indices(index_views(indices@))) by {
                assert forall|i: int| 0 <= i < ordered.len() implies ordered[i].0
                    == ordered[i].1@.transaction_id as u64 by {
                    let j = choose|j: int| 0 <= j < listed.len() && listed[j] == ordered[i];
                    assert(mapped(listed, view)[j] == ranked_indices(listed_indices(names@))[j]);
                }
            }
        }
        indices
    }

    /// The hints files among the names of a repository directory, in the
    /// order in which they are listed.
    pub fn hints(names: &Vec<String>) -> (hints: Vec<Hint>)
        ensures
            hints@.map_values(|h: Hint| h@) == listed_hints(names@),
    {
        let mut hints: Vec<Hint> = Vec::new();
        let mut n: usize = 0;
        assert(names@.take(0) =~= Seq::<String>::empty());
        assert(hints@.map_values(|h: Hint| h@) =~= listed_hints(names@.take(0)));
        while n < names.len()
            invariant
                n <= names@.len(),
                hints@.map_values(|h: Hint| h@) == listed_hints(names@.take(n as int)),
            decreases names@.len() - n,
        {
            let name = &names[n];
            let ghost listed = listed_hints(names@.take(n as int));
            proof {
                assert(names@.take(n + 1).drop_last() =~= names@.take(n as int));
                assert(names@.take(n + 1).last() == *name);
            }
            match number_behind("hints.", name.as_str()) {
                None => {},
                Some(id) => {
                    let hint = Hint { id, path: name.clone() };
                    let ghost old_hints = hints@;
                    hints.push(hint);
                    assert(hints@.map_values(|h: Hint| h@) =~= old_hints.map_values(
                        |h: Hint| h@,
                    ).push(hint@));
                },
            }
            n += 1;
        }
        assert(names@.take(names@.len() as int) =~= names@);
        hints
    }

    /// The segments of a data directory in the order in which they are
    /// replayed: by ascending number, those of one number by the number of
    /// their bucket, and those that agree in both in the order in which
    /// they are listed. Entries that are no buckets and files whose names
    /// spell no number are left out.
    pub fn segments(listing: &Vec<Bucket>) -> (segments: Vec<Segment>)
        ensures
            stably_sorted(
                ranked_segments(segment_views(segments@)),
                ranked_segments(listed_segments(listing@)),
            ),
    {
        let mut found: Vec<(u64, Segment)> = Vec::new();
        let ghost view = |s: Segment| s@;
        let mut b: usize = 0;
        assert(listing@.take(0) =~= Seq::<Bucket>::empty());
        assert(mapped(found@, view) =~= ranked_segments(listed_segments(listing@.take(0))));
        while b < listing.len()
            invariant
                b <= listing@.len(),
                view == |s: Segment| s@,
                mapped(found@, view) == ranked_segments(listed_segments(listing@.take(b as int))),
            decreases listing@.len() - b,
        {
            let entry = &listing[b];
            let ghost before = listed_segments(listing@.take(b as int));
            proof {
                assert(listing@.take(b + 1).drop_last() =~= listing@.take(b as int));
                assert(listing@.take(b + 1).last() == *entry);
            }
            match entry.number() {
                None => {
                    assert(before + Seq::<SegmentView>::empty() =~= before);
                },
                Some(bucket) => {
                    let mut f: usize = 0;
                    assert(entry.files@.take(0) =~= Seq::<String>::empty());
                    assert(before + Seq::<SegmentView>::empty() =~= before);
                    while f < entry.files.len()
                        invariant
                            f <= entry.files@.len(),
                            view == |s: Segment| s@,
                            mapped(found@, view) == ranked_segments(
                                before + bucket_files(
                                    bucket,
                                    entry.name@,
                                    entry.files@.take(f as int),
                                ),
                            ),
                        decreases entry.files@.len() - f,
                    {
                        let file = &entry.files[f];
                        let ghost listed = before + bucket_files(
                            bucket,
                            entry.name@,
                            entry.files@.take(f as int),
                        );
                        proof {
                            assert(entry.files@.take(f + 1).drop_last() =~= entry.files@.take(
                                f as int,
                            ));
                            assert(entry.files@.take(f + 1).last() == *file);
                        }
                        match number(file.as_str()) {
                            None => {},
                            Some(id) => {
                                let mut path = entry.name.clone();
                                proof {
                                    reveal_strlit("/");
                                }
                                path.append("/");
                                path.append(file.as_str());
                                assert(path@ =~= entry.name@ + seq!['/'] + file@);
                                let segment = Segment { id, bucket, path };
                                let ghost old_found = found@;
                                found.push((segment.rank(), segment));
                                proof {
                                    let added = segment@;
                                    assert(before + bucket_files(
                                        bucket,
                                        entry.name@,
                                        entry.files@.take(f + 1),
                                    ) =~= listed.push(added));
                                    assert(mapped(found@, view) =~= mapped(old_found, view).push(
                                        (added.rank(), added),
                                    ));
                                    assert(ranked_segments(listed.push(added)) =~= ranked_segments(
                                        listed,
                                    ).push((added.rank(), added)));
                                }
                            },
                        }
                        f += 1;
                    }
                    assert(entry.files@.take(entry.files@.len() as int) =~= entry.files@);
                },
            }
            b += 1;
        }
        assert(listing@.take(listing@.len() as int) =~= listing@);
        let ghost listed = found@;
        let sorted = stable_sort(found);
        let ghost ordered = sorted@;
        let segments = unranked(sorted);
        proof {
            lemma_stably_sorted_mapped(ordered, listed, view);
            assert(mapped(ordered, view) =~= ranked_segments(segment_views(segments@))) by {
                assert forall|i: int| 0 <= i < ordered.len() implies ordered[i].0
                    == ordered[i].1@.rank() by {
                    let j = choose|j: int| 0 <= j < listed.len() && listed[j] == ordered[i];
                    assert(mapped(listed, view)[j] == ranked_segments(
                        listed_segments(listing@),
                    )[j]);
                }
            }
        }
        segments
    }
}

} // verus!
