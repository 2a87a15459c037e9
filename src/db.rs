//! The command store: saved commands, newest first, with their optional
//! embeddings, and the two retrieval strategies over them.

use vstd::prelude::*;
use vstd::string::StringExecFns;
use crate::rank::{is_nearest, nearest, ranks_before};
use crate::text::{
    contains_seq, contains_str, copy_opt, lemma_lex_total, lemma_lex_transitive, lex_less, lex_lt,
    opt_str, opt_string, own_opt,
};

verus! {

/// Number of components in every stored embedding.
pub const EMBEDDING_DIM: usize = 384;

/// Why the store refused an operation.
#[derive(Debug, Clone, Copy, PartialEq, Eq, Structural)]
pub enum StorageError {
    /// A command with this id is already stored.
    DuplicateId,
    /// The command text is empty.
    EmptyCommand,
    /// The embedding does not have `EMBEDDING_DIM` components.
    DimensionMismatch,
    /// No command with this id is stored.
    NotFound,
}

/// One saved command.
pub struct CommandRecord {
    pub id: String,
    pub text: String,
    pub description: Option<String>,
    pub working_directory: Option<String>,
    /// Microseconds since the Unix epoch at which the command was stored.
    pub created_at: i64,
    pub use_count: u64,
}

/// A saved command as plain values.
pub struct RecordView {
    pub id: Seq<char>,
    pub text: Seq<char>,
    pub description: Option<Seq<char>>,
    pub working_directory: Option<Seq<char>>,
    pub created_at: i64,
    pub use_count: u64,
}

impl View for CommandRecord {
    type V = RecordView;

    open spec fn view(&self) -> RecordView {
        RecordView {
            id: self.id@,
            text: self.text@,
            description: opt_string(self.description),
            working_directory: opt_string(self.working_directory),
            created_at: self.created_at,
            use_count: self.use_count,
        }
    }
}

impl CommandRecord {
    /// A copy of this record.
    pub fn duplicate(&self) -> (r: CommandRecord)
        ensures
            r@ == self@,
    {
        CommandRecord {
            id: self.id.clone(),
            text: self.text.clone(),
            description: copy_opt(&self.description),
            working_directory: copy_opt(&self.working_directory),
            created_at: self.created_at,
            use_count: self.use_count,
        }
    }
}

/// The embedding of one saved command. Each component is the bit pattern of
/// an `f32`; the store keeps the numbers and never computes with them.
pub struct EmbeddingRecord {
    pub command_id: String,
    pub vector: Vec<u32>,
}

/// An embedding as plain values.
pub struct EmbeddingView {
    pub command_id: Seq<char>,
    pub vector: Seq<u32>,
}

impl View for EmbeddingRecord {
    type V = EmbeddingView;

    open spec fn view(&self) -> EmbeddingView {
        EmbeddingView { command_id: self.command_id@, vector: self.vector@ }
    }
}

impl EmbeddingRecord {
    /// A copy of this embedding.
    pub fn duplicate(&self) -> (r: EmbeddingRecord)
        ensures
            r@ == self@,
    {
        EmbeddingRecord { command_id: self.command_id.clone(), vector: self.vector.clone() }
    }
}

/// The record that `insert` stores.
pub open spec fn new_record(
    id: Seq<char>,
    text: Seq<char>,
    description: Option<Seq<char>>,
    working_directory: Option<Seq<char>>,
    created_at: i64,
) -> RecordView {
    RecordView { id, text, description, working_directory, created_at, use_count: 1 }
}

/// Some record carries `id`.
pub open spec fn has_id(records: Seq<RecordView>, id: Seq<char>) -> bool {
    exists|i: int| 0 <= i < records.len() && records[i].id == id
}

/// No two records share an id.
pub open spec fn ids_unique(records: Seq<RecordView>) -> bool {
    forall|i: int, j: int|
        0 <= i < records.len() && 0 <= j < records.len() && i != j ==> records[i].id
            != records[j].id
}

/// Records are ordered by `created_at`, most recent first.
pub open spec fn newest_first(records: Seq<RecordView>) -> bool {
    forall|i: int, j: int|
        0 <= i < j < records.len() ==> records[i].created_at >= records[j].created_at
}

/// Where a record made at time `t` goes: before the first record that is not newer.
pub open spec fn insert_pos(records: Seq<RecordView>, t: i64) -> int
    decreases records.len(),
{
    if records.len() == 0 {
        0
    } else if records[0].created_at <= t {
        0
    } else {
        1 + insert_pos(records.drop_first(), t)
    }
}

/// `(id, text)` of each record, in store order.
pub open spec fn listing(records: Seq<RecordView>) -> Seq<(Seq<char>, Seq<char>)> {
    records.map_values(|r: RecordView| (r.id, r.text))
}

/// What a search hands back for a record: id, text and working directory.
pub open spec fn hit(r: RecordView) -> (Seq<char>, Seq<char>, Option<Seq<char>>) {
    (r.id, r.text, r.working_directory)
}

/// The first `limit` records, in store order, whose text contains `query`.
pub open spec fn substring_hits(records: Seq<RecordView>, query: Seq<char>, limit: nat) -> Seq<
    (Seq<char>, Seq<char>, Option<Seq<char>>),
>
    decreases records.len(),
{
    if records.len() == 0 || limit == 0 {
        Seq::empty()
    } else if contains_seq(records[0].text, query) {
        seq![hit(records[0])] + substring_hits(records.drop_first(), query, (limit - 1) as nat)
    } else {
        substring_hits(records.drop_first(), query, limit)
    }
}

/// The stored record with `id`; ids are unique in a well-formed store.
pub open spec fn record_with_id(records: Seq<RecordView>, id: Seq<char>) -> RecordView {
    records[choose|i: int| 0 <= i < records.len() && records[i].id == id]
}

/// What a nearest-neighbour search hands back for embedding `e`: the id, text
/// and working directory of its command, and its distance key.
pub open spec fn nearest_hit(v: DbView, keys: Seq<u32>, e: int) -> (
    Seq<char>,
    Seq<char>,
    Option<Seq<char>>,
    u32,
) {
    let r = record_with_id(v.records, v.embeddings[e].command_id);
    (r.id, r.text, r.working_directory, keys[e])
}

/// The record with its use count raised by one, saturating at the maximum.
pub open spec fn used_once_more(r: RecordView) -> RecordView {
    RecordView {
        use_count: if r.use_count < u64::MAX {
            (r.use_count + 1) as u64
        } else {
            r.use_count
        },
        ..r
    }
}

/// Embeddings are ordered by command id, smallest first (so no id repeats).
pub open spec fn ids_ascending(embeddings: Seq<EmbeddingView>) -> bool {
    forall|i: int, j: int|
        0 <= i < j < embeddings.len() ==> lex_lt(
            embeddings[i].command_id,
            embeddings[j].command_id,
        )
}

/// Where the embedding of command `id` goes: before the first embedding whose
/// id does not come before `id`.
pub open spec fn embedding_pos(embeddings: Seq<EmbeddingView>, id: Seq<char>) -> int
    decreases embeddings.len(),
{
    if embeddings.len() == 0 {
        0
    } else if !lex_lt(embeddings[0].command_id, id) {
        0
    } else {
        1 + embedding_pos(embeddings.drop_first(), id)
    }
}

/// Embedding `a` is nearer than embedding `b`: a smaller distance key, or an
/// equal key and a smaller command id.
pub open spec fn nearer(v: DbView, keys: Seq<u32>, a: int, b: int) -> bool {
    keys[a] < keys[b] || (keys[a] == keys[b] && lex_lt(
        v.embeddings[a].command_id,
        v.embeddings[b].command_id,
    ))
}

/// `picks` are the positions of the `k` nearest embeddings (all when there
/// are fewer), nearest first, equal keys in command id order.
pub open spec fn nearest_by_id(v: DbView, keys: Seq<u32>, k: int, picks: Seq<usize>) -> bool {
    &&& picks.len() == (if k < keys.len() { k } else { keys.len() as int })
    &&& forall|m: int| 0 <= m < picks.len() ==> picks[m] < keys.len()
    &&& forall|m: int, n: int|
        0 <= m < n < picks.len() ==> nearer(v, keys, picks[m] as int, picks[n] as int)
    &&& forall|x: usize, m: int|
        x < keys.len() && !picks.contains(x) && 0 <= m < picks.len() ==> #[trigger] nearer(
            v,
            keys,
            picks[m] as int,
            x as int,
        )
}

/// In a well-formed store, position order among embeddings is id order, so
/// the nearest picks by position are the nearest picks by id.
proof fn lemma_nearest_by_id(v: DbView, keys: Seq<u32>, k: int, picks: Seq<usize>)
    requires
        v.wf(),
        keys.len() == v.embeddings.len(),
        is_nearest(keys, k, picks),
    ensures
        nearest_by_id(v, keys, k, picks),
{
    assert forall|m: int, n: int| 0 <= m < n < picks.len() implies nearer(
        v,
        keys,
        picks[m] as int,
        picks[n] as int,
    ) by {
        assert(ranks_before(keys, picks[m] as int, picks[n] as int));
    }
    assert forall|x: usize, m: int|
        x < keys.len() && !picks.contains(x) && 0 <= m < picks.len() implies #[trigger] nearer(
        v,
        keys,
        picks[m] as int,
        x as int,
    ) by {
        assert(ranks_before(keys, picks[m] as int, x as int));
    }
}

/// The position of the embedding of `id`, from the facts that place it.
proof fn lemma_embedding_pos(embeddings: Seq<EmbeddingView>, id: Seq<char>, i: int)
    requires
        0 <= i <= embeddings.len(),
        forall|j: int| 0 <= j < i ==> lex_lt(embeddings[j].command_id, id),
        i < embeddings.len() ==> !lex_lt(embeddings[i].command_id, id),
    ensures
        embedding_pos(embeddings, id) == i,
    decreases i,
{
    if i > 0 {
        lemma_embedding_pos(embeddings.drop_first(), id, i - 1);
    }
}

/// Each element of `kept` is one of the first `n` elements of `s`.
pub open spec fn from_prefix<A>(kept: Seq<A>, s: Seq<A>, n: int) -> bool {
    forall|a: int|
        0 <= a < kept.len() ==> exists|b: int| 0 <= b < n && #[trigger] kept[a] == #[trigger] s[b]
}

/// One step of a loop that keeps the elements of `s` passing `p`: the kept
/// prefix grows by `s[j]` exactly when it passes, and what is kept still
/// comes from the prefix read so far.
proof fn lemma_filter_step<A>(kept: Seq<A>, s: Seq<A>, p: spec_fn(A) -> bool, j: int)
    requires
        0 <= j < s.len(),
        from_prefix(kept, s, j),
    ensures
        s.subrange(0, j + 1).filter(p) == (if p(s[j]) {
            s.subrange(0, j).filter(p).push(s[j])
        } else {
            s.subrange(0, j).filter(p)
        }),
        from_prefix(kept, s, j + 1),
        from_prefix(kept.push(s[j]), s, j + 1),
{
    assert(s.subrange(0, j + 1) =~= s.subrange(0, j).push(s[j]));
    s.subrange(0, j).lemma_filter_push(s[j], p);
    let k = kept.push(s[j]);
    assert forall|a: int| 0 <= a < k.len() implies exists|b: int|
        0 <= b < j + 1 && #[trigger] k[a] == #[trigger] s[b] by {
        if a < kept.len() {
            let b = choose|b: int| 0 <= b < j && #[trigger] kept[a] == #[trigger] s[b];
            assert(k[a] == s[b]);
        } else {
            assert(k[a] == s[j]);
        }
    }
}

/// Records other than the one with `id`.
pub open spec fn other_record(id: Seq<char>) -> spec_fn(RecordView) -> bool {
    |r: RecordView| r.id != id
}

/// Embeddings other than the one of command `id`.
pub open spec fn other_embedding(id: Seq<char>) -> spec_fn(EmbeddingView) -> bool {
    |e: EmbeddingView| e.command_id != id
}

/// The contents of a store.
pub struct DbView {
    pub records: Seq<RecordView>,
    pub embeddings: Seq<EmbeddingView>,
}

impl DbView {
    /// The store with nothing in it.
    pub open spec fn empty() -> DbView {
        DbView { records: Seq::empty(), embeddings: Seq::empty() }
    }

    /// Ids are unique, records are newest first, embeddings are ordered by
    /// command id, and every embedding has the right width and belongs to a
    /// stored command.
    pub open spec fn wf(self) -> bool {
        &&& ids_unique(self.records)
        &&& newest_first(self.records)
        &&& ids_ascending(self.embeddings)
        &&& forall|i: int|
            0 <= i < self.embeddings.len() ==> has_id(self.records, self.embeddings[i].command_id)
        &&& forall|i: int|
            0 <= i < self.embeddings.len() ==> self.embeddings[i].vector.len() == EMBEDDING_DIM
    }

    /// The store after a record is added at its place in time.
    pub open spec fn with_record(self, r: RecordView) -> DbView {
        DbView {
            records: self.records.insert(insert_pos(self.records, r.created_at), r),
            embeddings: self.embeddings,
        }
    }

    /// The store after an embedding is added at its place in id order.
    pub open spec fn with_embedding(self, e: EmbeddingView) -> DbView {
        DbView {
            records: self.records,
            embeddings: self.embeddings.insert(embedding_pos(self.embeddings, e.command_id), e),
        }
    }

    /// The store after the command `id` and its embedding are removed.
    pub open spec fn without(self, id: Seq<char>) -> DbView {
        DbView {
            records: self.records.filter(other_record(id)),
            embeddings: self.embeddings.filter(other_embedding(id)),
        }
    }
}

/// The position of a record made at time `t`, from the facts that place it.
proof fn lemma_insert_pos(records: Seq<RecordView>, t: i64, i: int)
    requires
        0 <= i <= records.len(),
        forall|j: int| 0 <= j < i ==> records[j].created_at > t,
        i < records.len() ==> records[i].created_at <= t,
    ensures
        insert_pos(records, t) == i,
    decreases i,
{
    if i > 0 {
        lemma_insert_pos(records.drop_first(), t, i - 1);
    }
}

/// An id carried by some record still is after another record is inserted.
pub proof fn lemma_has_id_insert(records: Seq<RecordView>, pos: int, r: RecordView, id: Seq<char>)
    requires
        0 <= pos <= records.len(),
        has_id(records, id),
    ensures
        has_id(records.insert(pos, r), id),
{
    let i = choose|i: int| 0 <= i < records.len() && records[i].id == id;
    records.insert_ensures(pos, r);
    if i < pos {
        assert(records.insert(pos, r)[i].id == id);
    } else {
        assert(records.insert(pos, r)[i + 1].id == id);
    }
}

/// The place of a new record lies within the records.
pub proof fn lemma_insert_pos_range(records: Seq<RecordView>, t: i64)
    ensures
        0 <= insert_pos(records, t) <= records.len(),
    decreases records.len(),
{
    if records.len() > 0 {
        lemma_insert_pos_range(records.drop_first(), t);
    }
}

/// Saving a command under a fresh id and then listing the store shows that
/// id exactly once, with the saved text.
pub proof fn lemma_insert_then_list(
    v: DbView,
    id: Seq<char>,
    text: Seq<char>,
    description: Option<Seq<char>>,
    working_directory: Option<Seq<char>>,
    created_at: i64,
)
    requires
        v.wf(),
        !has_id(v.records, id),
    ensures
        ({
            let l = listing(
                v.with_record(
                    new_record(id, text, description, working_directory, created_at),
                ).records,
            );
            exists|i: int|
                0 <= i < l.len() && l[i] == (id, text) && forall|j: int|
                    0 <= j < l.len() && j != i ==> l[j].0 != id
        }),
{
    let r = new_record(id, text, description, working_directory, created_at);
    let p = insert_pos(v.records, created_at);
    lemma_insert_pos_range(v.records, created_at);
    v.records.insert_ensures(p, r);
    let n = v.records.insert(p, r);
    let l = listing(n);
    assert(n.len() == v.records.len() + 1);
    assert(l.len() == n.len());
    assert(n[p] == r);
    assert(l[p] == (id, text));
    assert forall|j: int| 0 <= j < l.len() && j != p implies l[j].0 != id by {
        if j < p {
            assert(n[j] == v.records[j]);
        } else {
            assert(n[j] == v.records[j - 1]);
        }
    }
    assert(v.with_record(r).records == n);
    assert(0 <= p < l.len() && l[p] == (id, text) && forall|j: int|
        0 <= j < l.len() && j != p ==> l[j].0 != id);
}

/// Removing an id leaves no record and no embedding that carries it.
pub proof fn lemma_without_removes(v: DbView, id: Seq<char>)
    ensures
        !has_id(v.without(id).records, id),
        forall|k: int|
            0 <= k < v.without(id).embeddings.len() ==> v.without(id).embeddings[k].command_id
                != id,
{
    let w = v.without(id);
    assert forall|k: int| 0 <= k < w.records.len() implies w.records[k].id != id by {
        v.records.lemma_filter_pred(other_record(id), k);
    }
    assert forall|k: int| 0 <= k < w.embeddings.len() implies w.embeddings[k].command_id != id by {
        v.embeddings.lemma_filter_pred(other_embedding(id), k);
    }
}

/// A command saved with its embedding and then deleted leaves neither a
/// record nor an embedding with its id behind.
pub proof fn lemma_delete_after_insert_with_embedding(
    v: DbView,
    id: Seq<char>,
    text: Seq<char>,
    description: Option<Seq<char>>,
    working_directory: Option<Seq<char>>,
    created_at: i64,
    vector: Seq<u32>,
)
    ensures
        ({
            let w = v.with_record(
                new_record(id, text, description, working_directory, created_at),
            ).with_embedding(EmbeddingView { command_id: id, vector }).without(id);
            &&& !has_id(w.records, id)
            &&& forall|k: int| 0 <= k < w.embeddings.len() ==> w.embeddings[k].command_id != id
        }),
{
    lemma_without_removes(
        v.with_record(new_record(id, text, description, working_directory, created_at)).with_embedding(
            EmbeddingView { command_id: id, vector },
        ),
        id,
    );
}

/// Relies on chrono's `From<SystemTime> for DateTime<Utc>` and
/// `DateTime::timestamp_micros`: the system clock in microseconds since the
/// Unix epoch, negative for a clock set before 1970. Its value is not
/// constrained.
#[verifier::external_body]
pub(crate) fn now_micros() -> (r: i64) {
    chrono::DateTime::<chrono::Utc>::from(std::time::SystemTime::now()).timestamp_micros()
}

/// The saved commands and, for those saved with one, their embeddings.
pub struct Db {
    records: Vec<CommandRecord>,
    embeddings: Vec<EmbeddingRecord>,
}

impl View for Db {
    type V = DbView;

    closed spec fn view(&self) -> DbView {
        DbView {
            records: self.records@.map_values(|r: CommandRecord| r@),
            embeddings: self.embeddings@.map_values(|e: EmbeddingRecord| e@),
        }
    }
}

impl Db {
    /// An empty store.
    pub fn new() -> (r: Db)
        ensures
            r@ == DbView::empty(),
            r@.wf(),
    {
        let r = Db { records: Vec::new(), embeddings: Vec::new() };
        assert(r@.records =~= Seq::empty());
        assert(r@.embeddings =~= Seq::empty());
        r
    }

    /// Where the record with `id` stands, if any.
    fn position(&self, id: &String) -> (r: Option<usize>)
        ensures
            match r {
                Some(i) => i < self@.records.len() && self@.records[i as int].id == id@,
                None => !has_id(self@.records, id@),
            },
    {
        let mut i: usize = 0;
        while i < self.records.len()
            invariant
                i <= self@.records.len(),
                self@.records.len() == self.records@.len(),
                forall|j: int| 0 <= j < i ==> self@.records[j].id != id@,
            decreases self.records@.len() - i,
        {
            if self.records[i].id == *id {
                return Some(i);
            }
            i += 1;
        }
        None
    }

    /// Puts `rec` at its place in time.
    fn place(&mut self, rec: CommandRecord)
        requires
            old(self)@.wf(),
            !has_id(old(self)@.records, rec.id@),
        ensures
            final(self)@ == old(self)@.with_record(rec@),
            final(self)@.wf(),
            has_id(final(self)@.records, rec@.id),
    {
        let ghost old_v = self@;
        let t = rec.created_at;
        let mut i: usize = 0;
        while i < self.records.len() && self.records[i].created_at > t
            invariant
                self@ == old_v,
                i <= self@.records.len(),
                self@.records.len() == self.records@.len(),
                forall|j: int| 0 <= j < i ==> self@.records[j].created_at > t,
            decreases self.records@.len() - i,
        {
            i += 1;
        }
        proof {
            lemma_insert_pos(old_v.records, t, i as int);
        }
        let ghost rv = rec@;
        self.records.insert(i, rec);
        let ghost s = old_v.records;
        proof {
            s.insert_ensures(i as int, rv);
            assert(self@.records =~= s.insert(i as int, rv));
            assert(self@.embeddings =~= old_v.embeddings);
            let n = s.insert(i as int, rv);
            assert(n[i as int] == rv);
            assert forall|a: int, b: int| 0 <= a < b < n.len() implies n[a].created_at
                >= n[b].created_at by {
                if b == i {
                    assert(n[a] == s[a]);
                } else if a == i {
                    assert(n[b] == s[b - 1]);
                    assert(s[i as int].created_at <= t);
                }
            }
            assert forall|a: int, b: int|
                0 <= a < n.len() && 0 <= b < n.len() && a != b implies n[a].id != n[b].id by {
                if a == i {
                    assert(b < i ==> n[b] == s[b]);
                    assert(b > i ==> n[b] == s[b - 1]);
                } else if b == i {
                    assert(a < i ==> n[a] == s[a]);
                    assert(a > i ==> n[a] == s[a - 1]);
                }
            }
            assert forall|k: int| 0 <= k < old_v.embeddings.len() implies has_id(
                n,
                old_v.embeddings[k].command_id,
            ) by {
                lemma_has_id_insert(s, i as int, rv, old_v.embeddings[k].command_id);
            }
        }
    }

    /// Stores a command made at `created_at`, with a use count of one.
    ///
    /// Fails with `EmptyCommand` when the text is empty, else with `DuplicateId`
    /// when the id is taken; the store is then unchanged.
    pub fn insert_command_at(
        &mut self,
        id: &str,
        cmd: &str,
        description: Option<&str>,
        working_dir: Option<&str>,
        created_at: i64,
    ) -> (r: Result<(), StorageError>)
        requires
            old(self)@.wf(),
        ensures
            final(self)@.wf(),
            cmd@.len() == 0 ==> r == Err::<(), StorageError>(StorageError::EmptyCommand)
                && final(self)@ == old(self)@,
            cmd@.len() > 0 && has_id(old(self)@.records, id@) ==> r == Err::<(), StorageError>(
                StorageError::DuplicateId,
            ) && final(self)@ == old(self)@,
            cmd@.len() > 0 && !has_id(old(self)@.records, id@) ==> r is Ok && final(self)@
                == old(self)@.with_record(
                new_record(id@, cmd@, opt_str(description), opt_str(working_dir), created_at),
            ),
    {
        if cmd.unicode_len() == 0 {
            return Err(StorageError::EmptyCommand);
        }
        let key = String::from_str(id);
        if self.position(&key).is_some() {
            return Err(StorageError::DuplicateId);
        }
        let rec = CommandRecord {
            id: key,
            text: String::from_str(cmd),
            description: own_opt(description),
            working_directory: own_opt(working_dir),
            created_at,
            use_count: 1,
        };
        self.place(rec);
        Ok(())
    }

    /// Stores a command stamped with the current time, with a use count of one.
    ///
    /// Fails as `insert_command_at` does.
    pub fn insert_command(
        &mut self,
        id: &str,
        cmd: &str,
        description: Option<&str>,
        working_dir: Option<&str>,
    ) -> (r: Result<(), StorageError>)
        requires
            old(self)@.wf(),
        ensures
            final(self)@.wf(),
            cmd@.len() == 0 ==> r == Err::<(), StorageError>(StorageError::EmptyCommand)
                && final(self)@ == old(self)@,
            cmd@.len() > 0 && has_id(old(self)@.records, id@) ==> r == Err::<(), StorageError>(
                StorageError::DuplicateId,
            ) && final(self)@ == old(self)@,
            cmd@.len() > 0 && !has_id(old(self)@.records, id@) ==> r is Ok && exists|t: i64|
                final(self)@ == old(self)@.with_record(
                    #[trigger] new_record(id@, cmd@, opt_str(description), opt_str(working_dir), t),
                ),
    {
        let t = now_micros();
        self.insert_command_at(id, cmd, description, working_dir, t)
    }

    /// `(id, text)` of every stored command, most recent first.
    pub fn get_all_commands(&self) -> (r: Vec<(String, String)>)
        requires
            self@.wf(),
        ensures
            r@.map_values(|p: (String, String)| (p.0@, p.1@)) == listing(self@.records),
    {
        let mut r: Vec<(String, String)> = Vec::new();
        let mut i: usize = 0;
        while i < self.records.len()
            invariant
                i <= self@.records.len(),
                self@.records.len() == self.records@.len(),
                r@.map_values(|p: (String, String)| (p.0@, p.1@)) == listing(
                    self@.records.subrange(0, i as int),
                ),
            decreases self.records@.len() - i,
        {
            let ghost before = r@.map_values(|p: (String, String)| (p.0@, p.1@));
            let rec = &self.records[i];
            assert(self@.records[i as int] == rec@);
            r.push((rec.id.clone(), rec.text.clone()));
            assert(r@.map_values(|p: (String, String)| (p.0@, p.1@)) =~= before.push(
                (rec@.id, rec@.text),
            ));
            i += 1;
            assert(r@.map_values(|p: (String, String)| (p.0@, p.1@)) =~= listing(
                self@.records.subrange(0, i as int),
            ));
        }
        assert(self@.records.subrange(0, i as int) =~= self@.records);
        r
    }

    /// Up to `limit` commands whose text contains `query` literally (case
    /// sensitive), most recent first, as `(id, text, working directory)`.
    pub fn search_commands(&self, query: &str, limit: usize) -> (r: Vec<
        (String, String, Option<String>),
    >)
        requires
            self@.wf(),
        ensures
            r@.map_values(|h: (String, String, Option<String>)| (h.0@, h.1@, opt_string(h.2)))
                == substring_hits(self@.records, query@, limit as nat),
    {
        let mut r: Vec<(String, String, Option<String>)> = Vec::new();
        let mut i: usize = 0;
        assert(self@.records.subrange(0, self@.records.len() as int) =~= self@.records);
        assert(r@.map_values(|h: (String, String, Option<String>)| (h.0@, h.1@, opt_string(h.2)))
            + substring_hits(self@.records, query@, limit as nat) =~= substring_hits(
            self@.records,
            query@,
            limit as nat,
        ));
        while i < self.records.len() && r.len() < limit
            invariant
                i <= self@.records.len(),
                r@.len() <= limit,
                self@.records.len() == self.records@.len(),
                r@.map_values(|h: (String, String, Option<String>)| (h.0@, h.1@, opt_string(h.2)))
                    + substring_hits(
                    self@.records.subrange(i as int, self@.records.len() as int),
                    query@,
                    (limit - r@.len()) as nat,
                ) == substring_hits(self@.records, query@, limit as nat),
            decreases self.records@.len() - i,
        {
            let ghost rest = self@.records.subrange(i as int, self@.records.len() as int);
            let ghost before = r@.map_values(
                |h: (String, String, Option<String>)| (h.0@, h.1@, opt_string(h.2)),
            );
            let rec = &self.records[i];
            assert(rest.drop_first() =~= self@.records.subrange(
                i + 1,
                self@.records.len() as int,
            ));
            if contains_str(rec.text.as_str(), query) {
                r.push((rec.id.clone(), rec.text.clone(), copy_opt(&rec.working_directory)));
                assert(r@.map_values(
                    |h: (String, String, Option<String>)| (h.0@, h.1@, opt_string(h.2)),
                ) =~= before.push(hit(rest[0])));
                assert(before.push(hit(rest[0])) + substring_hits(
                    rest.drop_first(),
                    query@,
                    (limit - r@.len()) as nat,
                ) =~= before + (seq![hit(rest[0])] + substring_hits(
                    rest.drop_first(),
                    query@,
                    (limit - r@.len()) as nat,
                )));
            }
            i += 1;
        }
        let ghost rest = self@.records.subrange(i as int, self@.records.len() as int);
        assert(substring_hits(rest, query@, (limit - r@.len()) as nat) =~= Seq::empty());
        assert(r@.map_values(|h: (String, String, Option<String>)| (h.0@, h.1@, opt_string(h.2)))
            =~= r@.map_values(|h: (String, String, Option<String>)| (h.0@, h.1@, opt_string(h.2)))
            + Seq::empty());
        r
    }

    /// Stores a command made at `created_at` together with its embedding, both
    /// or neither.
    ///
    /// Fails with `EmptyCommand` when the text is empty, else with
    /// `DimensionMismatch` when the embedding does not have `EMBEDDING_DIM`
    /// components, else with `DuplicateId` when the id is taken; the store is
    /// then unchanged.
    pub fn insert_command_with_embedding_at(
        &mut self,
        id: &str,
        cmd: &str,
        description: Option<&str>,
        working_dir: Option<&str>,
        embedding: &Vec<u32>,
        created_at: i64,
    ) -> (r: Result<(), StorageError>)
        requires
            old(self)@.wf(),
        ensures
            final(self)@.wf(),
            cmd@.len() == 0 ==> r == Err::<(), StorageError>(StorageError::EmptyCommand)
                && final(self)@ == old(self)@,
            cmd@.len() > 0 && embedding@.len() != EMBEDDING_DIM ==> r == Err::<(), StorageError>(
                StorageError::DimensionMismatch,
            ) && final(self)@ == old(self)@,
            cmd@.len() > 0 && embedding@.len() == EMBEDDING_DIM && has_id(old(self)@.records, id@)
                ==> r == Err::<(), StorageError>(StorageError::DuplicateId) && final(self)@ == old(
                self,
            )@,
            cmd@.len() > 0 && embedding@.len() == EMBEDDING_DIM && !has_id(
                old(self)@.records,
                id@,
            ) ==> r is Ok && final(self)@ == old(self)@.with_record(
                new_record(id@, cmd@, opt_str(description), opt_str(working_dir), created_at),
            ).with_embedding(EmbeddingView { command_id: id@, vector: embedding@ }),
    {
        if cmd.unicode_len() == 0 {
            return Err(StorageError::EmptyCommand);
        }
        if embedding.len() != EMBEDDING_DIM {
            return Err(StorageError::DimensionMismatch);
        }
        let key = String::from_str(id);
        if self.position(&key).is_some() {
            return Err(StorageError::DuplicateId);
        }
        let rec = CommandRecord {
            id: key.clone(),
            text: String::from_str(cmd),
            description: own_opt(description),
            working_directory: own_opt(working_dir),
            created_at,
            use_count: 1,
        };
        self.place(rec);
        let ghost mid = self@;
        let mut j: usize = 0;
        while j < self.embeddings.len() && lex_less(&self.embeddings[j].command_id, &key)
            invariant
                self@ == mid,
                key@ == id@,
                j <= mid.embeddings.len(),
                self.embeddings@.len() == mid.embeddings.len(),
                forall|k: int| 0 <= k < j ==> lex_lt(mid.embeddings[k].command_id, id@),
            decreases self.embeddings@.len() - j,
        {
            assert(mid.embeddings[j as int] == self.embeddings@[j as int]@);
            j += 1;
        }
        proof {
            if j < mid.embeddings.len() {
                assert(mid.embeddings[j as int] == self.embeddings@[j as int]@);
            }
            lemma_embedding_pos(mid.embeddings, id@, j as int);
        }
        let e = EmbeddingRecord { command_id: key, vector: embedding.clone() };
        assert(e.vector@ =~= embedding@);
        let ghost ev = e@;
        self.embeddings.insert(j, e);
        proof {
            let es = mid.embeddings;
            let n = es.insert(j as int, ev);
            es.insert_ensures(j as int, ev);
            assert(self@.records =~= mid.records);
            assert(self@.embeddings =~= n);
            assert(has_id(mid.records, id@));
            assert forall|a: int| 0 <= a < es.len() implies es[a].command_id != id@ by {
                let c = es[a].command_id;
                if c == id@ {
                    assert(has_id(old(self)@.records, c));
                }
            }
            if j < es.len() {
                lemma_lex_total(es[j as int].command_id, id@);
            }
            assert forall|a: int, b: int| 0 <= a < b < n.len() implies lex_lt(
                n[a].command_id,
                n[b].command_id,
            ) by {
                if b == j {
                    assert(n[a] == es[a]);
                } else if a == j {
                    assert(n[b] == es[b - 1]);
                    if b - 1 > j {
                        lemma_lex_transitive(id@, es[j as int].command_id, es[b - 1].command_id);
                    }
                } else if a < j && b > j {
                    assert(n[a] == es[a]);
                    assert(n[b] == es[b - 1]);
                } else if b < j {
                    assert(n[a] == es[a] && n[b] == es[b]);
                } else {
                    assert(n[a] == es[a - 1] && n[b] == es[b - 1]);
                }
            }
            assert forall|a: int| 0 <= a < n.len() implies has_id(
                self@.records,
                n[a].command_id,
            ) && n[a].vector.len() == EMBEDDING_DIM by {
                if a < j {
                    assert(n[a] == es[a]);
                } else if a > j {
                    assert(n[a] == es[a - 1]);
                }
            }
        }
        Ok(())
    }

    /// Stores a command stamped with the current time together with its
    /// embedding, both or neither.
    ///
    /// Fails as `insert_command_with_embedding_at` does.
    pub fn insert_command_with_embedding(
        &mut self,
        id: &str,
        cmd: &str,
        description: Option<&str>,
        working_dir: Option<&str>,
        embedding: &Vec<u32>,
    ) -> (r: Result<(), StorageError>)
        requires
            old(self)@.wf(),
        ensures
            final(self)@.wf(),
            cmd@.len() == 0 ==> r == Err::<(), StorageError>(StorageError::EmptyCommand)
                && final(self)@ == old(self)@,
            cmd@.len() > 0 && embedding@.len() != EMBEDDING_DIM ==> r == Err::<(), StorageError>(
                StorageError::DimensionMismatch,
            ) && final(self)@ == old(self)@,
            cmd@.len() > 0 && embedding@.len() == EMBEDDING_DIM && has_id(old(self)@.records, id@)
                ==> r == Err::<(), StorageError>(StorageError::DuplicateId) && final(self)@ == old(
                self,
            )@,
            cmd@.len() > 0 && embedding@.len() == EMBEDDING_DIM && !has_id(
                old(self)@.records,
                id@,
            ) ==> r is Ok && exists|t: i64|
                final(self)@ == old(self)@.with_record(
                    #[trigger] new_record(id@, cmd@, opt_str(description), opt_str(working_dir), t),
                ).with_embedding(EmbeddingView { command_id: id@, vector: embedding@ }),
    {
        let t = now_micros();
        self.insert_command_with_embedding_at(id, cmd, description, working_dir, embedding, t)
    }

    /// Removes the command `id` and its embedding. Removing an id that is not
    /// stored changes nothing and is no error.
    pub fn delete_command(&mut self, id: &str) -> (r: Result<(), StorageError>)
        requires
            old(self)@.wf(),
        ensures
            r is Ok,
            final(self)@ == old(self)@.without(id@),
            final(self)@.wf(),
    {
        let key = String::from_str(id);
        let ghost s = self@.records;
        let ghost es = self@.embeddings;
        let ghost p = other_record(id@);
        let ghost q = other_embedding(id@);
        let mut kept: Vec<CommandRecord> = Vec::new();
        let mut i: usize = 0;
        while i < self.records.len()
            invariant
                self@ == old(self)@,
                s == self@.records,
                p == other_record(id@),
                s.len() == self.records@.len(),
                key@ == id@,
                i <= s.len(),
                old(self)@.wf(),
                kept@.map_values(|r: CommandRecord| r@) == s.subrange(0, i as int).filter(p),
                from_prefix(kept@.map_values(|r: CommandRecord| r@), s, i as int),
                ids_unique(kept@.map_values(|r: CommandRecord| r@)),
                newest_first(kept@.map_values(|r: CommandRecord| r@)),
            decreases s.len() - i,
        {
            let ghost before = kept@.map_values(|r: CommandRecord| r@);
            proof {
                lemma_filter_step(before, s, p, i as int);
            }
            assert(s[i as int] == self.records@[i as int]@);
            if self.records[i].id != key {
                kept.push(self.records[i].duplicate());
                assert(kept@.map_values(|r: CommandRecord| r@) =~= before.push(s[i as int]));
                assert forall|a: int| 0 <= a < before.len() implies before[a].created_at
                    >= s[i as int].created_at && before[a].id != s[i as int].id by {
                    let b = choose|b: int| 0 <= b < i && #[trigger] before[a] == #[trigger] s[b];
                }
            }
            i += 1;
        }
        assert(s.subrange(0, s.len() as int) =~= s);
        let mut kept_e: Vec<EmbeddingRecord> = Vec::new();
        let mut j: usize = 0;
        while j < self.embeddings.len()
            invariant
                self@ == old(self)@,
                es == self@.embeddings,
                q == other_embedding(id@),
                es.len() == self.embeddings@.len(),
                key@ == id@,
                j <= es.len(),
                old(self)@.wf(),
                kept_e@.map_values(|e: EmbeddingRecord| e@) == es.subrange(0, j as int).filter(q),
                from_prefix(kept_e@.map_values(|e: EmbeddingRecord| e@), es, j as int),
                ids_ascending(kept_e@.map_values(|e: EmbeddingRecord| e@)),
            decreases es.len() - j,
        {
            let ghost before = kept_e@.map_values(|e: EmbeddingRecord| e@);
            proof {
                lemma_filter_step(before, es, q, j as int);
            }
            assert(es[j as int] == self.embeddings@[j as int]@);
            if self.embeddings[j].command_id != key {
                kept_e.push(self.embeddings[j].duplicate());
                assert(kept_e@.map_values(|e: EmbeddingRecord| e@) =~= before.push(es[j as int]));
                assert forall|a: int| 0 <= a < before.len() implies lex_lt(
                    before[a].command_id,
                    es[j as int].command_id,
                ) by {
                    let b = choose|b: int| 0 <= b < j && #[trigger] before[a] == #[trigger] es[b];
                }
            }
            j += 1;
        }
        assert(es.subrange(0, es.len() as int) =~= es);
        self.records = kept;
        self.embeddings = kept_e;
        proof {
            let nr = self@.records;
            let ne = self@.embeddings;
            assert forall|a: int| 0 <= a < ne.len() implies has_id(nr, ne[a].command_id)
                && ne[a].vector.len() == EMBEDDING_DIM by {
                let b = choose|b: int| 0 <= b < es.len() && #[trigger] ne[a] == #[trigger] es[b];
                assert(has_id(s, es[b].command_id));
                let c = choose|c: int| 0 <= c < s.len() && s[c].id == es[b].command_id;
                assert(q(ne[a]));
                s.lemma_filter_contains(p, c);
                let d = choose|d: int| 0 <= d < nr.len() && nr[d] == s[c];
                assert(nr[d].id == ne[a].command_id);
            }
        }
        Ok(())
    }

    /// Removes every command and every embedding.
    pub fn clear(&mut self) -> (r: Result<(), StorageError>)
        ensures
            r is Ok,
            final(self)@ == DbView::empty(),
            final(self)@.wf(),
            listing(final(self)@.records) == Seq::<(Seq<char>, Seq<char>)>::empty(),
    {
        self.records = Vec::new();
        self.embeddings = Vec::new();
        assert(self@.records =~= Seq::empty());
        assert(self@.embeddings =~= Seq::empty());
        assert(listing(self@.records) =~= Seq::empty());
        Ok(())
    }

    /// The stored commands, most recent first.
    pub fn records(&self) -> (r: &Vec<CommandRecord>)
        ensures
            r@.map_values(|c: CommandRecord| c@) == self@.records,
    {
        &self.records
    }

    /// Number of stored embeddings.
    pub fn embedding_count(&self) -> (r: usize)
        ensures
            r == self@.embeddings.len(),
    {
        self.embeddings.len()
    }

    /// The stored embeddings, in the order they were stored; distance keys
    /// handed to `search_nearest` follow this order.
    pub fn embeddings(&self) -> (r: &Vec<EmbeddingRecord>)
        ensures
            r@.map_values(|e: EmbeddingRecord| e@) == self@.embeddings,
    {
        &self.embeddings
    }

    /// The commands of the `limit` nearest embeddings (all when there are
    /// fewer), nearest first and equal keys in command id order, as
    /// `(id, text, working directory, key)`.
    /// `distance_keys[i]` is the distance key of the `i`-th stored embedding.
    pub fn search_nearest(&self, distance_keys: &Vec<u32>, limit: usize) -> (r: Vec<
        (String, String, Option<String>, u32),
    >)
        requires
            self@.wf(),
            distance_keys@.len() == self@.embeddings.len(),
        ensures
            exists|picks: Seq<usize>|
                nearest_by_id(self@, distance_keys@, limit as int, picks) && r@.len() == picks.len()
                    && forall|m: int|
                    0 <= m < picks.len() ==> (
                        #[trigger] r@[m].0@,
                        r@[m].1@,
                        opt_string(r@[m].2),
                        r@[m].3,
                    ) == nearest_hit(self@, distance_keys@, picks[m] as int),
    {
        let picks = nearest(distance_keys, limit);
        proof {
            lemma_nearest_by_id(self@, distance_keys@, limit as int, picks@);
        }
        let mut r: Vec<(String, String, Option<String>, u32)> = Vec::new();
        let mut m: usize = 0;
        while m < picks.len()
            invariant
                self@.wf(),
                distance_keys@.len() == self@.embeddings.len(),
                self.embeddings@.len() == self@.embeddings.len(),
                is_nearest(distance_keys@, limit as int, picks@),
                nearest_by_id(self@, distance_keys@, limit as int, picks@),
                m <= picks@.len(),
                r@.len() == m,
                forall|q: int|
                    0 <= q < m ==> (
                        #[trigger] r@[q].0@,
                        r@[q].1@,
                        opt_string(r@[q].2),
                        r@[q].3,
                    ) == nearest_hit(self@, distance_keys@, picks@[q] as int),
            decreases picks@.len() - m,
        {
            let e = picks[m];
            let emb = &self.embeddings[e];
            assert(emb@ == self@.embeddings[e as int]);
            match self.position(&emb.command_id) {
                Some(i) => {
                    let rec = &self.records[i];
                    proof {
                        let id = emb@.command_id;
                        let c = choose|c: int|
                            0 <= c < self@.records.len() && self@.records[c].id == id;
                        assert(c == i);
                        assert(self@.records[i as int] == rec@);
                    }
                    r.push(
                        (
                            rec.id.clone(),
                            rec.text.clone(),
                            copy_opt(&rec.working_directory),
                            distance_keys[e],
                        ),
                    );
                },
                None => {
                    // every embedding belongs to a stored command
                    assert(false);
                },
            }
            m += 1;
        }
        r
    }

    /// Raises the use count of the command `id` by one (it stays at the
    /// maximum once there). Fails with `NotFound`, changing nothing, when no
    /// command has that id.
    pub fn record_use(&mut self, id: &str) -> (r: Result<(), StorageError>)
        requires
            old(self)@.wf(),
        ensures
            final(self)@.wf(),
            !has_id(old(self)@.records, id@) ==> r == Err::<(), StorageError>(
                StorageError::NotFound,
            ) && final(self)@ == old(self)@,
            has_id(old(self)@.records, id@) ==> r is Ok && exists|i: int|
                0 <= i < old(self)@.records.len() && old(self)@.records[i].id == id@
                    && final(self)@ == (DbView {
                    records: old(self)@.records.update(
                        i,
                        #[trigger] used_once_more(old(self)@.records[i]),
                    ),
                    embeddings: old(self)@.embeddings,
                }),
    {
        let key = String::from_str(id);
        let i = match self.position(&key) {
            Some(i) => i,
            None => {
                return Err(StorageError::NotFound);
            },
        };
        let mut rec = self.records.remove(i);
        if rec.use_count < u64::MAX {
            rec.use_count = rec.use_count + 1;
        }
        let ghost nv = rec@;
        assert(nv == used_once_more(old(self)@.records[i as int]));
        self.records.insert(i, rec);
        proof {
            let n = old(self)@.records.update(i as int, nv);
            assert(self@.records =~= n);
            assert(self@.embeddings =~= old(self)@.embeddings);
            assert forall|k: int| 0 <= k < old(self)@.embeddings.len() implies has_id(
                n,
                old(self)@.embeddings[k].command_id,
            ) by {
                let ov = old(self)@;
                let c = choose|c: int|
                    0 <= c < ov.records.len() && ov.records[c].id == ov.embeddings[k].command_id;
                assert(n[c].id == ov.records[c].id);
            }
        }
        Ok(())
    }
}

} // verus!
