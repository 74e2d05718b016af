//! Names of model files, and the listing by which a server tells a client
//! which models it has.

use crate::text::{
    chars_of, contents, ends_with, extend, find, find_in, has_prefix, has_suffix, lines,
    split_lines, starts_with, string_of,
};
use vstd::prelude::*;
use vstd::slice::slice_subrange;

verus! {

/// What every model file's name starts with.
pub open spec fn model_prefix() -> Seq<char> {
    "ggml-"@
}

/// What every model file's name ends with.
pub open spec fn model_suffix() -> Seq<char> {
    ".bin"@
}

/// The name under which a model file is offered: the file name without
/// `ggml-` and `.bin`. Files named otherwise are no models.
pub open spec fn display_name(file_name: Seq<char>) -> Option<Seq<char>> {
    if starts_with(file_name, model_prefix()) && ends_with(file_name, model_suffix()) {
        Some(file_name.subrange(5, file_name.len() - 4))
    } else {
        None
    }
}

/// The file name of the model offered as `name`.
pub open spec fn file_name_of(name: Seq<char>) -> Seq<char> {
    model_prefix() + name + model_suffix()
}

/// A name that starts with the prefix and ends with the suffix has room for
/// both.
pub proof fn lemma_prefix_and_suffix_do_not_overlap(file_name: Seq<char>)
    requires
        starts_with(file_name, model_prefix()),
        ends_with(file_name, model_suffix()),
    ensures
        file_name.len() >= 9,
{
    reveal_strlit("ggml-");
    reveal_strlit(".bin");
    let n = file_name.len() as int;
    let head = file_name.take(5);
    let tail = file_name.skip(n - 4);
    assert(head[0] == 'g' && head[1] == 'g' && head[2] == 'm' && head[3] == 'l' && head[4] == '-');
    assert(tail[0] == '.');
    if n < 9 {
        assert(tail[0] == file_name[n - 4]);
        assert(file_name[n - 4] == head[n - 4]);
    }
}

/// Tells whether `file_name` names a model, and under which name.
pub fn model_display_name(file_name: &str) -> (r: Option<String>)
    ensures
        match r {
            Some(name) => display_name(file_name@) == Some(name@),
            None => display_name(file_name@) is None,
        },
{
    let chars = chars_of(file_name);
    let prefix = chars_of("ggml-");
    let suffix = chars_of(".bin");
    proof {
        reveal_strlit("ggml-");
        reveal_strlit(".bin");
    }
    if has_prefix(chars.as_slice(), prefix.as_slice()) && has_suffix(
        chars.as_slice(),
        suffix.as_slice(),
    ) {
        proof {
            lemma_prefix_and_suffix_do_not_overlap(chars@);
        }
        let name = slice_subrange(chars.as_slice(), 5, chars.len() - 4);
        Some(string_of(name))
    } else {
        None
    }
}

/// The file name of the model offered as `name`: `small` is
/// `ggml-small.bin`.
pub fn model_file_name(name: &str) -> (r: String)
    ensures
        r@ == file_name_of(name@),
{
    let mut out = chars_of("ggml-");
    let body = chars_of(name);
    let tail = chars_of(".bin");
    extend(&mut out, body.as_slice());
    extend(&mut out, tail.as_slice());
    string_of(out.as_slice())
}

/// A model's name is found again in the name of its file.
pub proof fn lemma_display_name_of_file_name(name: Seq<char>)
    ensures
        display_name(file_name_of(name)) == Some(name),
{
    reveal_strlit("ggml-");
    reveal_strlit(".bin");
    let file = file_name_of(name);
    assert(file.take(5) =~= model_prefix());
    assert(file.skip(file.len() - 4) =~= model_suffix());
    assert(file.subrange(5, file.len() - 4) =~= name);
}

/// Where a model that the user asked for is looked up.
#[derive(Debug, Clone, Copy, PartialEq, Eq, Structural)]
pub enum ModelPath {
    /// The argument is a path to the file.
    AsGiven,
    /// The argument is a file name in the models directory.
    InModelsDir,
    /// The argument is a model's name: the file in the models directory is
    /// named by [`model_file_name`].
    ByNameInModelsDir,
}

/// Which reading of the argument is taken, by what exists on disk: the
/// first of path, file name and model name that leads to a file. Where none
/// does, the file name is reported, being the one that the user is most
/// likely to recognise in an error message.
pub open spec fn resolved(exists_as_given: bool, exists_in_dir: bool, exists_by_name: bool)
    -> ModelPath {
    if exists_as_given {
        ModelPath::AsGiven
    } else if exists_in_dir {
        ModelPath::InModelsDir
    } else if exists_by_name {
        ModelPath::ByNameInModelsDir
    } else {
        ModelPath::InModelsDir
    }
}

/// Resolves a model argument (`small`, `ggml-small.bin` or a path) to the
/// place of the file, given which of its three readings exists.
pub fn resolve_model_path(exists_as_given: bool, exists_in_dir: bool, exists_by_name: bool) -> (r:
    ModelPath)
    ensures
        r == resolved(exists_as_given, exists_in_dir, exists_by_name),
{
    if exists_as_given {
        ModelPath::AsGiven
    } else if exists_in_dir {
        ModelPath::InModelsDir
    } else if exists_by_name {
        ModelPath::ByNameInModelsDir
    } else {
        ModelPath::InModelsDir
    }
}

// ---------------------------------------------------------------------------
// The listing
// ---------------------------------------------------------------------------

/// A model in a listing: its name and the path of its file.
pub struct ListedModel {
    pub name: String,
    pub path: String,
}

impl View for ListedModel {
    type V = (Seq<char>, Seq<char>);

    open spec fn view(&self) -> (Seq<char>, Seq<char>) {
        (self.name@, self.path@)
    }
}

/// The contents of a listing.
pub open spec fn listing_view(models: Seq<ListedModel>) -> Seq<(Seq<char>, Seq<char>)> {
    Seq::new(models.len(), |i: int| models[i]@)
}

/// The model that a line of the listing names: name and path on either
/// side of the first tab, both non-empty.
pub open spec fn listed(line: Seq<char>) -> Option<(Seq<char>, Seq<char>)> {
    match find(line, seq!['\t']) {
        Some(at) => if at == 0 || at + 1 >= line.len() {
            None
        } else {
            Some((line.take(at), line.skip(at + 1)))
        },
        None => None,
    }
}

/// The models that `rows` name, in order; rows that name none are skipped.
pub open spec fn listed_in(rows: Seq<Seq<char>>) -> Seq<(Seq<char>, Seq<char>)>
    decreases rows.len(),
{
    if rows.len() == 0 {
        Seq::empty()
    } else {
        let front = listed_in(rows.drop_last());
        match listed(rows.last()) {
            Some(model) => front.push(model),
            None => front,
        }
    }
}

/// The models that a server's listing names.
pub open spec fn model_listing(output: Seq<char>) -> Seq<(Seq<char>, Seq<char>)> {
    listed_in(lines(output))
}

/// Reads one line of a listing.
fn parse_listing_line(line: &[char]) -> (r: Option<ListedModel>)
    ensures
        match r {
            Some(model) => listed(line@) == Some(model@),
            None => listed(line@) is None,
        },
{
    let mut tab: Vec<char> = Vec::new();
    tab.push('\t');
    assert(tab@ =~= seq!['\t']);
    match find_in(line, tab.as_slice()) {
        Some(at) => {
            let total: usize = line.len();
            if at == 0 || at + 1 >= total {
                None
            } else {
                let name = slice_subrange(line, 0, at);
                let path = slice_subrange(line, at + 1, total);
                assert(name@ =~= line@.take(at as int));
                assert(path@ =~= line@.skip(at + 1));
                Some(ListedModel { name: string_of(name), path: string_of(path) })
            }
        },
        None => None,
    }
}

/// Reads the listing that a server prints: one model per line, name and
/// path separated by a tab.
pub fn parse_model_listing(output: &str) -> (r: Vec<ListedModel>)
    ensures
        listing_view(r@) == model_listing(output@),
{
    let chars = chars_of(output);
    let rows = split_lines(chars.as_slice());
    let mut models: Vec<ListedModel> = Vec::new();
    let mut i: usize = 0;
    assert(contents(rows@).take(0) =~= Seq::<Seq<char>>::empty());
    assert(listing_view(models@) =~= listed_in(contents(rows@).take(0)));
    while i < rows.len()
        invariant
            i <= rows.len(),
            listing_view(models@) == listed_in(contents(rows@).take(i as int)),
        decreases rows.len() - i,
    {
        let ghost before = listing_view(models@);
        assert(contents(rows@).take(i + 1).drop_last() =~= contents(rows@).take(i as int));
        assert(contents(rows@).take(i + 1).last() == rows[i as int]@);
        match parse_listing_line(rows[i].as_slice()) {
            Some(model) => {
                models.push(model);
                assert(listing_view(models@) =~= before.push(model@));
            },
            None => {},
        }
        i += 1;
    }
    assert(contents(rows@).take(rows.len() as int) =~= contents(rows@));
    models
}

/// The line by which a server lists one model.
pub open spec fn listing_line(name: Seq<char>, path: Seq<char>) -> Seq<char> {
    name + seq!['\t'] + path + seq!['\n']
}

/// Writes the line that lists one model.
pub fn model_listing_line(name: &str, path: &str) -> (r: String)
    ensures
        r@ == listing_line(name@, path@),
{
    let mut out = chars_of(name);
    out.push('\t');
    let tail = chars_of(path);
    extend(&mut out, tail.as_slice());
    out.push('\n');
    assert(out@ =~= listing_line(name@, path@));
    string_of(out.as_slice())
}

// ---------------------------------------------------------------------------
// Order
// ---------------------------------------------------------------------------

/// `a` stands before `b`, or is `b`, in the order of a dictionary whose
/// alphabet is Unicode.
pub open spec fn name_le(a: Seq<char>, b: Seq<char>) -> bool
    decreases a.len(),
{
    if a.len() == 0 {
        true
    } else if b.len() == 0 {
        false
    } else if a[0] != b[0] {
        (a[0] as int) < (b[0] as int)
    } else {
        name_le(a.drop_first(), b.drop_first())
    }
}

/// The models stand in the order of their names.
pub open spec fn sorted_by_name(models: Seq<(Seq<char>, Seq<char>)>) -> bool {
    forall|i: int| 0 <= i < models.len() - 1 ==> name_le((#[trigger] models[i]).0, models[i + 1].0)
}

/// Of two names, one stands before the other or they are the same.
pub proof fn lemma_name_le_total(a: Seq<char>, b: Seq<char>)
    ensures
        name_le(a, b) || name_le(b, a),
    decreases a.len(),
{
    if a.len() > 0 && b.len() > 0 {
        if a[0] == b[0] {
            lemma_name_le_total(a.drop_first(), b.drop_first());
        } else {
            assert(a[0] as int != b[0] as int);
        }
    }
}

/// Tells whether `a` stands before `b` or is `b`.
pub fn name_before_or_same(a: &[char], b: &[char]) -> (r: bool)
    ensures
        r == name_le(a@, b@),
{
    let mut i: usize = 0;
    assert(a@.skip(0) =~= a@);
    assert(b@.skip(0) =~= b@);
    while i < a.len() && i < b.len()
        invariant
            i <= a.len(),
            i <= b.len(),
            name_le(a@, b@) == name_le(a@.skip(i as int), b@.skip(i as int)),
        decreases a.len() - i,
    {
        if a[i] != b[i] {
            return a[i] < b[i];
        }
        assert(a@.skip(i as int).drop_first() =~= a@.skip(i + 1));
        assert(b@.skip(i as int).drop_first() =~= b@.skip(i + 1));
        i += 1;
    }
    i >= a.len()
}

/// Tells whether `name` stands before the name of `model` or is that name.
fn stands_before(name: &[char], model: &ListedModel) -> (r: bool)
    ensures
        r == name_le(name@, model@.0),
{
    let other = chars_of(model.name.as_str());
    name_before_or_same(name, other.as_slice())
}

/// Putting one model into a list adds it to what the list holds.
proof fn lemma_insert_adds(
    list: Seq<(Seq<char>, Seq<char>)>,
    at: int,
    model: (Seq<char>, Seq<char>),
)
    requires
        0 <= at <= list.len(),
    ensures
        list.insert(at, model).to_multiset() == list.to_multiset().insert(model),
{
    let longer = list.insert(at, model);
    vstd::seq_lib::to_multiset_remove(longer, at);
    assert(longer.remove(at) =~= list);
    longer.to_multiset_ensures();
    assert(longer[at] == model);
    assert(longer.contains(model));
    assert(longer.to_multiset() =~= list.to_multiset().insert(model));
}

/// The models in the order of their names. Nothing is lost and nothing
/// added.
pub fn sort_models(models: Vec<ListedModel>) -> (r: Vec<ListedModel>)
    ensures
        sorted_by_name(listing_view(r@)),
        listing_view(r@).to_multiset() == listing_view(models@).to_multiset(),
{
    let mut rest = models;
    let mut out: Vec<ListedModel> = Vec::new();
    let ghost all = listing_view(models@);
    assert(listing_view(out@) =~= Seq::<(Seq<char>, Seq<char>)>::empty());
    assert(listing_view(out@).to_multiset().add(all.to_multiset()) =~= all.to_multiset()) by {
        listing_view(out@).to_multiset_ensures();
    }
    while rest.len() > 0
        invariant
            sorted_by_name(listing_view(out@)),
            listing_view(out@).to_multiset().add(listing_view(rest@).to_multiset())
                == all.to_multiset(),
        decreases rest.len(),
    {
        let ghost rest_before = listing_view(rest@);
        let ghost out_before = listing_view(out@);
        let model = rest.pop().unwrap();
        let name = chars_of(model.name.as_str());
        let mut at: usize = 0;
        while at < out.len() && !stands_before(name.as_slice(), &out[at])
            invariant
                at <= out.len(),
                name@ == model@.0,
                out_before == listing_view(out@),
                forall|k: int| 0 <= k < at ==> !name_le(name@, (#[trigger] out_before[k]).0),
            decreases out.len() - at,
        {
            at += 1;
        }
        proof {
            let longer = out_before.insert(at as int, model@);
            assert(rest_before =~= listing_view(rest@).push(model@));
            vstd::seq_lib::to_multiset_build(listing_view(rest@), model@);
            lemma_insert_adds(out_before, at as int, model@);
            assert(longer.to_multiset().add(listing_view(rest@).to_multiset())
                =~= out_before.to_multiset().add(rest_before.to_multiset()));
            assert forall|i: int| 0 <= i < longer.len() - 1 implies name_le(
                (#[trigger] longer[i]).0,
                longer[i + 1].0,
            ) by {
                if i + 1 < at {
                    assert(longer[i] == out_before[i] && longer[i + 1] == out_before[i + 1]);
                } else if i + 1 == at {
                    assert(longer[i] == out_before[i]);
                    lemma_name_le_total(name@, out_before[i].0);
                } else if i == at {
                    assert(longer[i + 1] == out_before[i]);
                } else {
                    assert(longer[i] == out_before[i - 1] && longer[i + 1] == out_before[i]);
                }
            }
        }
        out.insert(at, model);
        assert(listing_view(out@) =~= out_before.insert(at as int, model@));
    }
    assert(listing_view(rest@).to_multiset() =~= vstd::multiset::Multiset::empty()) by {
        listing_view(rest@).to_multiset_ensures();
    }
    assert(listing_view(out@).to_multiset() =~= all.to_multiset());
    out
}

} // verus!
