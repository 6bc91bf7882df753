//! How much planning asks: no question twice for one photo, and so only so many.

use crate::dedup::{of_size, HashQuery};
use crate::paths::under;
use crate::plan::{
    asks, concerns, dir_of_photo, displaces, is_choice, primary_at, progress, same_question,
    suffixed, takes, wanted_path, Job, Planner, Query, World,
};
use vstd::prelude::*;

verus! {

/// Questions and answers in a row: before every question, while it is asked, and at
/// the end.
pub open spec fn is_dialogue(
    before: Seq<Planner>,
    questions: Seq<Query>,
    asking: Seq<Planner>,
) -> bool {
    &&& before.len() == questions.len() + 1
    &&& asking.len() == questions.len()
    &&& forall|k: int|
        0 <= k < questions.len() ==> #[trigger] asks(before[k], questions[k], asking[k])
    &&& forall|k: int|
        0 <= k < questions.len() ==> #[trigger] takes(asking[k], questions[k], before[k + 1])
}

/// What a question about a photo is about: a path, the edges of a file, or the whole of
/// it.
pub enum Subject {
    Path(Seq<char>),
    Edges(Seq<char>),
    Whole(Seq<char>),
    Place,
}

pub open spec fn subject(q: Query) -> Subject {
    match q {
        Query::Exists(p) => Subject::Path(p@),
        Query::Hash(HashQuery::Partial { path, .. }) => Subject::Edges(path@),
        Query::Hash(HashQuery::Full { path }) => Subject::Whole(path@),
        Query::Nearest(_) => Subject::Place,
    }
}

/// The files that are hashed for the `i`th photo: itself, and those of its size that are
/// shipped or that the destination holds.
pub open spec fn hashed_for(w: World, job: Job, i: int) -> Seq<Seq<char>> {
    let photo = job.photos[i];
    let twins = progress(w, job, i).state.twins;
    seq![under(job.opts.source@, photo.rel_path@)] + twins.map_values(
        |t: crate::twins::TwinView| under(job.opts.source@, t.source),
    ) + of_size(job.index, photo.size)
}

/// The paths that the `i`th photo can get: the one that it wants, and those with a
/// number.
pub open spec fn paths_for(w: World, job: Job, i: int) -> Seq<Seq<char>> {
    match dir_of_photo(w, job, i) {
        None => seq![],
        Some(dir) => Seq::new(
            u32::MAX as nat + 1,
            |n: int|
                under(
                    job.opts.dest@,
                    if n == 0 {
                        wanted_path(job.photos[i], dir)
                    } else {
                        suffixed(wanted_path(job.photos[i], dir), n as nat)
                    },
                ),
        ),
    }
}

/// Everything that can be asked about the `i`th photo.
pub open spec fn subjects_for(w: World, job: Job, i: int) -> Seq<Subject> {
    paths_for(w, job, i).map_values(|p: Seq<char>| Subject::Path(p)) + hashed_for(
        w,
        job,
        i,
    ).map_values(|p: Seq<char>| Subject::Edges(p)) + hashed_for(w, job, i).map_values(
        |p: Seq<char>| Subject::Whole(p),
    )
}

proof fn lemma_subject(q: Query, w: World, job: Job, i: int)
    requires
        concerns(q, w, job, i),
    ensures
        subjects_for(w, job, i).contains(subject(q)),
{
    let paths = paths_for(w, job, i);
    let files = hashed_for(w, job, i);
    let photo = job.photos[i];
    let twins = progress(w, job, i).state.twins;
    let all = subjects_for(w, job, i);
    match q {
        Query::Exists(p) => {
            let dir = dir_of_photo(w, job, i).unwrap();
            let path = wanted_path(photo, dir);
            let n: int = if p@ == under(job.opts.dest@, path) {
                0
            } else {
                (choose|n: nat|
                    1 <= n <= u32::MAX && p@ == under(job.opts.dest@, #[trigger] suffixed(path, n)))
                    as int
            };
            assert(is_choice(p@, job.opts.dest@, path));
            assert(paths[n] == p@);
            assert(all[n] == subject(q));
        },
        Query::Hash(h) => {
            let (file, whole) = match h {
                HashQuery::Partial { path, .. } => (path@, false),
                HashQuery::Full { path } => (path@, true),
            };
            let m = twins.len() as int;
            let abs = under(job.opts.source@, photo.rel_path@);
            let same = of_size(job.index, photo.size);
            let k: int = if file == abs {
                0
            } else if exists|t: int|
                0 <= t < m && file == under(job.opts.source@, (#[trigger] twins[t]).source) {
                1 + (choose|t: int|
                    0 <= t < m && file == under(job.opts.source@, (#[trigger] twins[t]).source))
            } else {
                1 + m + (choose|t: int| 0 <= t < same.len() && file == #[trigger] same[t])
            };
            assert(files[k] == file);
            let at = if whole {
                paths.len() + files.len() + k
            } else {
                paths.len() + k
            };
            assert(all[at] == subject(q));
        },
        Query::Nearest(_) => {},
    }
}

/// A question that was answered stays answered, as long as the talk is about one photo.
proof fn lemma_stays(
    w: World,
    before: Seq<Planner>,
    questions: Seq<Query>,
    asking: Seq<Planner>,
    i: nat,
    j: int,
    k: int,
)
    requires
        is_dialogue(before, questions, asking),
        before.last().possible(w),
        forall|n: int| 0 <= n < asking.len() ==> (#[trigger] asking[n]).passed() == i,
        forall|n: int| 0 <= n < questions.len() ==> !(#[trigger] questions[n] is Nearest),
        0 <= j < k < before.len(),
    ensures
        before[k].answered(questions[j]),
    decreases k,
{
    assert(takes(asking[k - 1], questions[k - 1], before[k - 1 + 1]));
    if j < k - 1 {
        lemma_stays(w, before, questions, asking, i, j, k - 1);
        assert(asks(before[k - 1], questions[k - 1], asking[k - 1]));
        lemma_concerns(w, before, questions, asking, i, j);
        lemma_concerns(w, before, questions, asking, i, k - 1);
        assert(asking[k - 1].answered(questions[j]));
        assert(!displaces(questions[k - 1], questions[j]));
    }
}

/// A world that is possible at the end was possible all along.
proof fn lemma_possible(
    w: World,
    before: Seq<Planner>,
    questions: Seq<Query>,
    asking: Seq<Planner>,
    k: int,
)
    requires
        is_dialogue(before, questions, asking),
        before.last().possible(w),
        0 <= k < before.len(),
    ensures
        before[k].possible(w),
        before[k].job() == before.last().job(),
    decreases before.len() - k,
{
    if k < before.len() - 1 {
        lemma_possible(w, before, questions, asking, k + 1);
        assert(asks(before[k], questions[k], asking[k]));
        assert(takes(asking[k], questions[k], before[k + 1]));
    }
}

proof fn lemma_concerns(
    w: World,
    before: Seq<Planner>,
    questions: Seq<Query>,
    asking: Seq<Planner>,
    i: nat,
    k: int,
)
    requires
        is_dialogue(before, questions, asking),
        before.last().possible(w),
        0 <= k < questions.len(),
        asking[k].passed() == i,
        !(questions[k] is Nearest),
    ensures
        concerns(questions[k], w, before.last().job(), i as int),
{
    lemma_possible(w, before, questions, asking, k);
    assert(asks(before[k], questions[k], asking[k]));
    assert(asking[k].possible(w));
    assert(asking[k].has_cause_for(questions[k]));
}

/// Only so much is asked about one photo: about every path that it can get once, and
/// about the edges and the whole of every file that it can be a duplicate of once.
pub proof fn questions_about_a_photo_are_bounded(
    w: World,
    before: Seq<Planner>,
    questions: Seq<Query>,
    asking: Seq<Planner>,
    i: nat,
)
    requires
        is_dialogue(before, questions, asking),
        before.last().possible(w),
        forall|n: int| 0 <= n < asking.len() ==> (#[trigger] asking[n]).passed() == i,
        forall|n: int| 0 <= n < questions.len() ==> !(#[trigger] questions[n] is Nearest),
    ensures
        ({
            let job = before.last().job();
            questions.len() <= paths_for(w, job, i as int).len() + 2 * hashed_for(
                w,
                job,
                i as int,
            ).len()
        }),
{
    let job = before.last().job();
    let all = subjects_for(w, job, i as int);
    let asked = questions.map_values(|q: Query| subject(q));
    assert forall|j: int, k: int| 0 <= j < k < asked.len() implies asked[j] != asked[k] by {
        lemma_stays(w, before, questions, asking, i, j, k);
        assert(asks(before[k], questions[k], asking[k]));
        if asked[j] == asked[k] {
            lemma_concerns(w, before, questions, asking, i, j);
            lemma_concerns(w, before, questions, asking, i, k);
            assert(same_question(questions[j], questions[k]));
            before[k].answers_go_by_question(questions[j], questions[k]);
        }
    }
    assert(asked.no_duplicates());
    assert forall|s: Subject| #[trigger] asked.to_set().contains(s) implies all.to_set().contains(
        s,
    ) by {
        let k = choose|k: int| 0 <= k < asked.len() && asked[k] == s;
        lemma_concerns(w, before, questions, asking, i, k);
        lemma_subject(questions[k], w, job, i as int);
    }
    asked.unique_seq_to_set();
    all.lemma_cardinality_of_set();
    vstd::set_lib::lemma_len_subset(asked.to_set(), all.to_set());
}

/// No more places are asked for than there are groups.
pub proof fn questions_about_places_are_bounded(
    before: Seq<Planner>,
    questions: Seq<Query>,
    asking: Seq<Planner>,
)
    requires
        is_dialogue(before, questions, asking),
        forall|n: int| 0 <= n < questions.len() ==> #[trigger] questions[n] is Nearest,
    ensures
        questions.len() <= before.last().job().groups.len(),
{
    if questions.len() > 0 {
        let k = questions.len() - 1;
        lemma_located(before, questions, asking, k);
        assert(takes(asking[k], questions[k], before[k + 1]));
        assert(asks(before[k], questions[k], asking[k]));
        assert(questions[k] is Nearest);
    }
}

proof fn lemma_located(
    before: Seq<Planner>,
    questions: Seq<Query>,
    asking: Seq<Planner>,
    k: int,
)
    requires
        is_dialogue(before, questions, asking),
        forall|n: int| 0 <= n < questions.len() ==> #[trigger] questions[n] is Nearest,
        0 <= k < questions.len(),
    ensures
        asking[k].located() >= k,
    decreases k,
{
    if k > 0 {
        lemma_located(before, questions, asking, k - 1);
        assert(asks(before[k - 1], questions[k - 1], asking[k - 1]));
        assert(takes(asking[k - 1], questions[k - 1], before[k - 1 + 1]));
        assert(asks(before[k], questions[k], asking[k]));
        assert(questions[k - 1] is Nearest && questions[k] is Nearest);
        if asking[k].located() == asking[k - 1].located() {
            assert(primary_at(asking[k].job(), asking[k].located() as int) == primary_at(
                asking[k - 1].job(),
                asking[k - 1].located() as int,
            ));
            before[k].answers_go_by_question(questions[k - 1], questions[k]);
        }
    }
}

} // verus!
