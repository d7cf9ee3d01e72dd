use crate::bytes::bytes_lt;
use crate::error::TransformError;
use crate::merge::{merge_values, merged_value, MergePolicy};
use crate::runs::{is_merged, is_merged_in_runs, is_merged_in_some_runs, law_runs_merge_as_one};
use crate::stream::{writer_pairs, writer_setup};
use std::borrow::Cow;
use vstd::prelude::*;

verus! {

/// A key with the value given under it.
pub type Pair = (Seq<u8>, Seq<u8>);

/// A key with all the values given under it, in the order in which they
/// were given.
pub type Group = (Seq<u8>, Seq<Seq<u8>>);

/// The longest key or value that a sorter takes.
pub const MAX_ENTRY_LEN: usize = 0xffff_ffff;

/// `grenad::Error`, of which nothing is known.
#[verifier::external_type_specification]
#[verifier::external_body]
#[verifier::reject_recursive_types(U)]
pub struct ExGrenadError<U>(grenad::Error<U>);

/// The settings from which a sorter is built: a `grenad::SorterBuilder`
/// whose merge function applies a `MergePolicy`.
#[verifier::external_body]
pub struct SorterBuilder {
    inner: grenad::SorterBuilder<
        Box<dyn for <'a>Fn(&[u8], &[Cow<'a, [u8]>]) -> Result<Cow<'a, [u8]>, TransformError>>,
        grenad::DefaultChunkCreator,
    >,
}

/// A sorter that takes pairs of a key and a value in any order, spills
/// them to temporary files when they take too much memory, and hands them
/// out by ascending key, one value for each key: a `grenad::Sorter` whose
/// merge function applies a `MergePolicy`.
#[verifier::external_body]
pub struct Sorter {
    inner: grenad::Sorter<
        Box<dyn for <'a>Fn(&[u8], &[Cow<'a, [u8]>]) -> Result<Cow<'a, [u8]>, TransformError>>,
        grenad::DefaultChunkCreator,
    >,
}

/// What a sorter hands out, key after key: a `grenad::MergerIter` over
/// the chunks of a sorter.
#[verifier::external_body]
pub struct SorterIter {
    inner: grenad::MergerIter<
        <grenad::DefaultChunkCreator as grenad::ChunkCreator>::Chunk,
        Box<dyn for <'a>Fn(&[u8], &[Cow<'a, [u8]>]) -> Result<Cow<'a, [u8]>, TransformError>>,
    >,
}

/// The policy that the sorter built from these settings will apply.
pub uninterp spec fn builder_policy(builder: SorterBuilder) -> MergePolicy;

/// The policy that the sorter applies to the values of one key.
pub uninterp spec fn sorter_policy(sorter: Sorter) -> MergePolicy;

/// The pairs that the sorter was given, in the order in which they came.
pub uninterp spec fn sorter_entries(sorter: Sorter) -> Seq<Pair>;

/// The policy that is applied to the values of each key handed out.
pub uninterp spec fn iter_policy(iter: SorterIter) -> MergePolicy;

/// The keys that are still to be handed out, each with its values.
pub uninterp spec fn iter_groups(iter: SorterIter) -> Seq<Group>;

/// The values that `entries` hold under `key`, in their order.
pub open spec fn values_for(entries: Seq<Pair>, key: Seq<u8>) -> Seq<Seq<u8>>
    decreases entries.len(),
{
    if entries.len() == 0 {
        Seq::empty()
    } else if entries.last().0 == key {
        values_for(entries.drop_last(), key).push(entries.last().1)
    } else {
        values_for(entries.drop_last(), key)
    }
}

/// Whether `groups` are the pairs of `entries` gathered by key: the keys of
/// `entries`, each once, in ascending order, each with its values.
pub open spec fn is_grouping(entries: Seq<Pair>, groups: Seq<Group>) -> bool {
    &&& forall|i: int, j: int|
        0 <= i < j < groups.len() ==> bytes_lt(#[trigger] groups[i].0, #[trigger] groups[j].0)
    &&& forall|i: int|
        0 <= i < groups.len() ==> (#[trigger] groups[i]).1.len() > 0 && groups[i].1 == values_for(
            entries,
            groups[i].0,
        )
    &&& forall|k: int|
        0 <= k < entries.len() ==> exists|i: int|
            0 <= i < groups.len() && groups[i].0 == (#[trigger] entries[k]).0
}

/// Whether `pairs` are `groups` with the values of each key merged by
/// `policy`.
pub open spec fn is_merging(policy: MergePolicy, groups: Seq<Group>, pairs: Seq<Pair>) -> bool {
    &&& pairs.len() == groups.len()
    &&& forall|i: int|
        0 <= i < pairs.len() ==> (#[trigger] pairs[i]).0 == groups[i].0 && Some(pairs[i].1)
            == merged_value(policy, groups[i].1)
}

/// Whether `pairs` are `groups` with the values of each key merged by
/// `policy` in some number of runs.
pub open spec fn is_merging_in_runs(policy: MergePolicy, groups: Seq<Group>, pairs: Seq<Pair>) -> bool {
    &&& pairs.len() == groups.len()
    &&& forall|i: int|
        0 <= i < pairs.len() ==> (#[trigger] pairs[i]).0 == groups[i].0 && is_merged_in_some_runs(
            policy,
            groups[i].1,
            pairs[i].1,
        )
}

/// The error of this library that stands for an error of `grenad`; an
/// error of the merge function is handed on as it is, whatever it is.
#[verifier::external_body]
pub(crate) fn grenad_error(error: grenad::Error<TransformError>) -> TransformError {
    match error {
        grenad::Error::Io(_) => TransformError::Io,
        grenad::Error::Merge(error) => error,
        grenad::Error::InvalidCompressionType => TransformError::InvalidCompression,
        grenad::Error::InvalidFormatVersion => TransformError::InvalidFormatVersion,
    }
}

/// The error that a sorter failed with, as one of the errors that a sorter
/// reports. The merge function of the sorters refuses values as an
/// invalid record or as merged keys; an error of another kind counts as a
/// failure to read or write.
pub fn sorter_error(error: grenad::Error<TransformError>) -> (out: TransformError)
    ensures
        out.is_sorter_error(),
{
    match grenad_error(error) {
        TransformError::InvalidRecord => TransformError::InvalidRecord,
        TransformError::IndexingMergingKeys => TransformError::IndexingMergingKeys,
        TransformError::InvalidCompression => TransformError::InvalidCompression,
        TransformError::InvalidFormatVersion => TransformError::InvalidFormatVersion,
        _ => TransformError::Io,
    }
}

/// `SorterBuilder::new` with a merge function that applies `policy` by
/// calling `merge_values`. A sorter hands its merge function the values
/// of one key, of which there is one at least.
#[verifier::external_body]
pub(crate) fn sorter_builder_new(policy: MergePolicy) -> (builder: SorterBuilder)
    ensures
        builder_policy(builder) == policy,
{
    SorterBuilder {
        inner: grenad::SorterBuilder::new(
            Box::new(move |key: &[u8], values: &[Cow<[u8]>]| merge_values(policy, key, values)),
        ),
    }
}

/// `SorterBuilder::chunk_compression_type`, which leaves the merge
/// function alone.
#[verifier::external_body]
pub(crate) fn sorter_builder_chunk_compression_type(
    builder: &mut SorterBuilder,
    compression: grenad::CompressionType,
)
    ensures
        builder_policy(*final(builder)) == builder_policy(*old(builder)),
{
    let _ = builder.inner.chunk_compression_type(compression);
}

/// `SorterBuilder::chunk_compression_level`, which leaves the merge
/// function alone.
#[verifier::external_body]
pub(crate) fn sorter_builder_chunk_compression_level(builder: &mut SorterBuilder, level: u32)
    ensures
        builder_policy(*final(builder)) == builder_policy(*old(builder)),
{
    let _ = builder.inner.chunk_compression_level(level);
}

/// `SorterBuilder::max_nb_chunks`, which leaves the merge function alone.
#[verifier::external_body]
pub(crate) fn sorter_builder_max_nb_chunks(builder: &mut SorterBuilder, nb_chunks: usize)
    ensures
        builder_policy(*final(builder)) == builder_policy(*old(builder)),
{
    let _ = builder.inner.max_nb_chunks(nb_chunks);
}

/// `SorterBuilder::dump_threshold`, which leaves the merge function alone.
#[verifier::external_body]
pub(crate) fn sorter_builder_dump_threshold(builder: &mut SorterBuilder, memory: usize)
    ensures
        builder_policy(*final(builder)) == builder_policy(*old(builder)),
{
    let _ = builder.inner.dump_threshold(memory);
}

/// `SorterBuilder::allow_realloc`, which leaves the merge function alone.
#[verifier::external_body]
pub(crate) fn sorter_builder_allow_realloc(builder: &mut SorterBuilder, allow: bool)
    ensures
        builder_policy(*final(builder)) == builder_policy(*old(builder)),
{
    let _ = builder.inner.allow_realloc(allow);
}

/// `SorterBuilder::build`: a sorter with the merge function of the
/// builder that holds no pair yet.
#[verifier::external_body]
pub(crate) fn sorter_builder_build(builder: SorterBuilder) -> (sorter: Sorter)
    ensures
        sorter_policy(sorter) == builder_policy(builder),
        sorter_entries(sorter) == Seq::<Pair>::empty(),
{
    Sorter { inner: builder.inner.build() }
}

/// `Sorter::insert`: when it succeeds the sorter holds one pair more. It
/// fails when a chunk cannot be written or when the merge function
/// refuses values that are written with it. A key or a value of more than
/// `MAX_ENTRY_LEN` bytes makes it panic.
#[verifier::external_body]
pub(crate) fn sorter_insert(sorter: &mut Sorter, key: &[u8], value: &[u8]) -> (done: Result<
    (),
    grenad::Error<TransformError>,
>)
    requires
        key@.len() <= MAX_ENTRY_LEN,
        value@.len() <= MAX_ENTRY_LEN,
    ensures
        sorter_policy(*final(sorter)) == sorter_policy(*old(sorter)),
        done is Ok ==> sorter_entries(*final(sorter)) == sorter_entries(*old(sorter)).push(
            (key@, value@),
        ),
{
    sorter.inner.insert(key, value)
}

/// `Sorter::into_stream_merger_iter`: when it succeeds, what is to be
/// handed out are the pairs of the sorter gathered by key.
#[verifier::external_body]
pub(crate) fn sorter_into_stream_merger_iter(sorter: Sorter) -> (iter: Result<
    SorterIter,
    grenad::Error<TransformError>,
>)
    ensures
        iter matches Ok(it) ==> iter_policy(it) == sorter_policy(sorter) && is_grouping(
            sorter_entries(sorter),
            iter_groups(it),
        ),
{
    sorter.inner.into_stream_merger_iter().map(|inner| SorterIter { inner })
}

/// `MergerIter::next`: the lowest key that is left, with the value that the
/// policy makes of its values, or `None` when no key is left. The sorter
/// merges the values of a key in runs that stand one above the other:
/// when it writes a chunk, when it merges its chunks into one, and when
/// it hands the key out; each run merges neighbours and keeps their
/// order.
#[verifier::external_body]
pub(crate) fn sorter_iter_next(iter: &mut SorterIter) -> (next: Result<
    Option<(Vec<u8>, Vec<u8>)>,
    grenad::Error<TransformError>,
>)
    ensures
        iter_policy(*final(iter)) == iter_policy(*old(iter)),
        next matches Ok(Some(pair)) ==> iter_groups(*old(iter)).len() > 0 && pair.0@ == iter_groups(
            *old(iter),
        )[0].0 && is_merged_in_some_runs(
            iter_policy(*old(iter)),
            iter_groups(*old(iter))[0].1,
            pair.1@,
        ) && iter_groups(*final(iter)) == iter_groups(*old(iter)).drop_first(),
        next matches Ok(None) ==> iter_groups(*old(iter)).len() == 0,
{
    iter.inner.next().map(|pair| pair.map(|(key, value)| (key.to_vec(), value.to_vec())))
}

/// The lowest key that is left, with the value that the policy makes of
/// all its values in one run, or `None` when no key is left.
pub(crate) fn next_merged(iter: &mut SorterIter) -> (next: Result<
    Option<(Vec<u8>, Vec<u8>)>,
    grenad::Error<TransformError>,
>)
    ensures
        iter_policy(*final(iter)) == iter_policy(*old(iter)),
        next matches Ok(Some(pair)) ==> iter_groups(*old(iter)).len() > 0 && pair.0@ == iter_groups(
            *old(iter),
        )[0].0 && is_merged(iter_policy(*old(iter)), iter_groups(*old(iter))[0].1, pair.1@)
            && iter_groups(*final(iter)) == iter_groups(*old(iter)).drop_first(),
        next matches Ok(None) ==> iter_groups(*old(iter)).len() == 0,
{
    let ghost policy = iter_policy(*iter);
    let ghost groups = iter_groups(*iter);
    let next = sorter_iter_next(iter);
    proof {
        if next is Ok && next->Ok_0 is Some {
            let value = next->Ok_0->Some_0.1@;
            let runs = choose|runs: nat| is_merged_in_runs(policy, groups[0].1, value, runs);
            law_runs_merge_as_one(policy, groups[0].1, value, runs);
        }
    }
    next
}

/// `Sorter::write_into_stream_writer` into a writer that was given nothing
/// yet: when it succeeds, the writer was given the pairs of the sorter
/// gathered by key, each key with the value that the policy makes of its
/// values, in runs as `sorter_iter_next` says.
#[verifier::external_body]
pub(crate) fn sorter_write_into_stream_writer(
    sorter: Sorter,
    writer: &mut grenad::Writer<Vec<u8>>,
) -> (done: Result<(), grenad::Error<TransformError>>)
    requires
        writer_pairs(*old(writer)).len() == 0,
    ensures
        writer_setup(*final(writer)) == writer_setup(*old(writer)),
        done is Ok ==> exists|groups: Seq<Group>|
            is_grouping(sorter_entries(sorter), groups) && is_merging_in_runs(
                sorter_policy(sorter),
                groups,
                writer_pairs(*final(writer)),
            ),
{
    sorter.inner.write_into_stream_writer(writer)
}

/// Writes the pairs of the sorter, gathered by key, into a writer that
/// was given nothing yet, each key with the value that the policy makes
/// of all its values in one run.
pub(crate) fn write_merged(sorter: Sorter, writer: &mut grenad::Writer<Vec<u8>>) -> (done: Result<
    (),
    grenad::Error<TransformError>,
>)
    requires
        writer_pairs(*old(writer)).len() == 0,
    ensures
        writer_setup(*final(writer)) == writer_setup(*old(writer)),
        done is Ok ==> exists|groups: Seq<Group>|
            is_grouping(sorter_entries(sorter), groups) && is_merging(
                sorter_policy(sorter),
                groups,
                writer_pairs(*final(writer)),
            ),
{
    let ghost policy = sorter_policy(sorter);
    let ghost entries = sorter_entries(sorter);
    let done = sorter_write_into_stream_writer(sorter, writer);
    proof {
        if done is Ok {
            let pairs = writer_pairs(*writer);
            let groups = choose|groups: Seq<Group>|
                is_grouping(entries, groups) && is_merging_in_runs(policy, groups, pairs);
            assert forall|i: int| 0 <= i < pairs.len() implies (#[trigger] pairs[i]).0
                == groups[i].0 && Some(pairs[i].1) == merged_value(policy, groups[i].1) by {
                assert(is_merged_in_some_runs(policy, groups[i].1, pairs[i].1));
                let runs = choose|runs: nat|
                    is_merged_in_runs(policy, groups[i].1, pairs[i].1, runs);
                law_runs_merge_as_one(policy, groups[i].1, pairs[i].1, runs);
            }
            assert(is_grouping(entries, groups) && is_merging(policy, groups, pairs));
        }
    }
    done
}

} // verus!
