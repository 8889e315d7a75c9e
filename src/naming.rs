use vstd::prelude::*;

verus! {

/// The character that separates the segments of an object key.
pub open spec fn is_separator(c: char) -> bool {
    c == '/'
}

/// A key that ends with a separator marks a directory and holds no data.
pub open spec fn is_directory_marker_spec(key: Seq<char>) -> bool {
    key.len() > 0 && is_separator(key.last())
}

/// Tells whether `key` is a directory marker, that is, ends with `/`.
pub fn is_directory_marker(key: &str) -> (r: bool)
    ensures
        r == is_directory_marker_spec(key@),
{
    let n = key.unicode_len();
    if n == 0 {
        false
    } else {
        key.get_char(n - 1) == '/'
    }
}

/// What a single character of a key becomes in a staged file name: a
/// separator turns into `___`, any other character stays.
pub open spec fn staged_piece(c: char) -> Seq<char> {
    if is_separator(c) {
        seq!['_', '_', '_']
    } else {
        seq![c]
    }
}

/// The staged file name of `key`: every `/` replaced by `___`.
pub open spec fn staged_name_of(key: Seq<char>) -> Seq<char>
    decreases key.len(),
{
    if key.len() == 0 {
        Seq::empty()
    } else {
        staged_name_of(key.drop_last()) + staged_piece(key.last())
    }
}

/// Reads a staged file name back as a key, taking each `___` for a `/`.
pub open spec fn key_of_staged_name(name: Seq<char>) -> Seq<char>
    decreases name.len(),
{
    if name.len() >= 3 && name[name.len() - 1] == '_' && name[name.len() - 2] == '_'
        && name[name.len() - 3] == '_' {
        key_of_staged_name(name.subrange(0, name.len() - 3)) + seq!['/']
    } else if name.len() == 0 {
        Seq::empty()
    } else {
        key_of_staged_name(name.drop_last()) + seq![name.last()]
    }
}

/// A key that holds no `_` of its own.
pub open spec fn free_of_underscore(key: Seq<char>) -> bool {
    forall|i: int| 0 <= i < key.len() ==> key[i] != '_'
}

/// On keys without `_`, reading a staged name back gives the key.
pub proof fn lemma_staged_name_reads_back(key: Seq<char>)
    requires
        free_of_underscore(key),
    ensures
        key_of_staged_name(staged_name_of(key)) == key,
    decreases key.len(),
{
    if key.len() > 0 {
        let rest = key.drop_last();
        let c = key.last();
        assert(free_of_underscore(rest));
        lemma_staged_name_reads_back(rest);
        let name = staged_name_of(key);
        let head = staged_name_of(rest);
        assert(name == head + staged_piece(c));
        if is_separator(c) {
            assert(name.subrange(0, name.len() - 3) =~= head);
        } else {
            assert(name.drop_last() =~= head);
            assert(name.last() == c);
        }
        assert(key =~= rest + seq![c]);
    }
}

/// The staged name tells keys apart: two keys without `_` of their own that
/// stage under the same file name are the same key.
pub proof fn lemma_staged_name_injective(a: Seq<char>, b: Seq<char>)
    requires
        free_of_underscore(a),
        free_of_underscore(b),
        staged_name_of(a) == staged_name_of(b),
    ensures
        a == b,
{
    lemma_staged_name_reads_back(a);
    lemma_staged_name_reads_back(b);
}

/// A staged name holds no separator, so it names a file directly in the
/// staging directory.
pub proof fn lemma_staged_name_is_flat(key: Seq<char>)
    ensures
        forall|i: int|
            0 <= i < staged_name_of(key).len() ==> !is_separator(#[trigger] staged_name_of(key)[i]),
    decreases key.len(),
{
    if key.len() > 0 {
        lemma_staged_name_is_flat(key.drop_last());
        let head = staged_name_of(key.drop_last());
        let piece = staged_piece(key.last());
        assert forall|i: int| 0 <= i < staged_name_of(key).len() implies !is_separator(
            #[trigger] staged_name_of(key)[i],
        ) by {
            if i >= head.len() {
                assert(staged_name_of(key)[i] == piece[i - head.len()]);
            } else {
                assert(staged_name_of(key)[i] == head[i]);
            }
        }
    }
}

/// Turns an object key into a flat file name: every `/` becomes `___`.
pub fn staged_name(key: &str) -> (r: String)
    ensures
        r@ == staged_name_of(key@),
{
    let n = key.unicode_len();
    let mut out = String::new();
    let mut start: usize = 0;
    let mut i: usize = 0;
    while i < n
        invariant
            n == key@.len(),
            start <= i <= n,
            out@ + key@.subrange(start as int, i as int) == staged_name_of(
                key@.subrange(0, i as int),
            ),
        decreases n - i,
    {
        let c = key.get_char(i);
        let ghost prefix = key@.subrange(0, i as int + 1);
        assert(prefix.drop_last() =~= key@.subrange(0, i as int));
        assert(prefix.last() == c);
        if c == '/' {
            out.append(key.substring_char(start, i));
            proof {
                reveal_strlit("___");
            }
            out.append("___");
            assert(out@ + key@.subrange(i as int + 1, i as int + 1) =~= staged_name_of(prefix));
            start = i + 1;
        } else {
            assert(out@ + key@.subrange(start as int, i as int + 1) =~= staged_name_of(prefix));
        }
        i = i + 1;
    }
    out.append(key.substring_char(start, n));
    assert(key@.subrange(0, n as int) =~= key@);
    out
}

/// An object to download: its key, and the name of the file it is stored
/// under in the staging directory.
#[derive(Debug)]
pub struct StagedObject {
    pub key: String,
    pub file_name: String,
}

impl View for StagedObject {
    type V = (Seq<char>, Seq<char>);

    open spec fn view(&self) -> (Seq<char>, Seq<char>) {
        (self.key@, self.file_name@)
    }
}

/// Why the objects of a bucket cannot be staged.
#[derive(Debug)]
pub enum StagingError {
    /// Two keys would be stored under the same file name.
    NameCollision { first: String, second: String },
}

/// The objects to stage for `keys`, in listing order: every key that is not
/// a directory marker, with its staged file name.
pub open spec fn staging_plan(keys: Seq<Seq<char>>) -> Seq<(Seq<char>, Seq<char>)>
    decreases keys.len(),
{
    if keys.len() == 0 {
        Seq::empty()
    } else {
        let key = keys.last();
        let head = staging_plan(keys.drop_last());
        if is_directory_marker_spec(key) {
            head
        } else {
            head.push((key, staged_name_of(key)))
        }
    }
}

/// No two entries of `plan` share a file name.
pub open spec fn file_names_distinct(plan: Seq<(Seq<char>, Seq<char>)>) -> bool {
    forall|i: int, j: int| 0 <= i < j < plan.len() ==> plan[i].1 != plan[j].1
}

/// Entries `i` and `j` of `plan`, the first earlier, stage keys `first` and
/// `second` under one file name.
pub open spec fn collision_at(
    plan: Seq<(Seq<char>, Seq<char>)>,
    i: int,
    j: int,
    first: Seq<char>,
    second: Seq<char>,
) -> bool {
    &&& 0 <= i < j < plan.len()
    &&& plan[i].0 == first
    &&& plan[j].0 == second
    &&& plan[i].1 == plan[j].1
}

/// `e` names the keys of two entries of `plan` that share a file name.
pub open spec fn reports_collision(plan: Seq<(Seq<char>, Seq<char>)>, e: StagingError) -> bool {
    exists|i: int, j: int| #[trigger] collision_at(plan, i, j, e->first@, e->second@)
}

/// Lists the objects to download for the keys of a bucket, skipping directory
/// markers. Fails, rather than let one file overwrite another, when two keys
/// would be stored under the same file name.
pub fn plan_staging(keys: &Vec<String>) -> (r: Result<Vec<StagedObject>, StagingError>)
    ensures
        r is Ok <==> file_names_distinct(staging_plan(keys.deep_view())),
        r matches Ok(v) ==> v@.map_values(|o: StagedObject| o@) == staging_plan(
            keys.deep_view(),
        ),
        r matches Err(e) ==> reports_collision(staging_plan(keys.deep_view()), e),
{
    let ghost all = keys.deep_view();
    let mut plan: Vec<StagedObject> = Vec::new();
    let mut k: usize = 0;
    while k < keys.len()
        invariant
            k <= keys.len(),
            all == keys.deep_view(),
            plan@.map_values(|o: StagedObject| o@) == staging_plan(all.subrange(0, k as int)),
        decreases keys.len() - k,
    {
        let ghost seen = all.subrange(0, k as int + 1);
        assert(seen.drop_last() =~= all.subrange(0, k as int));
        assert(seen.last() == keys@[k as int]@);
        let ghost before = plan@.map_values(|o: StagedObject| o@);
        if !is_directory_marker(keys[k].as_str()) {
            let file_name = staged_name(keys[k].as_str());
            plan.push(StagedObject { key: keys[k].clone(), file_name });
            assert(plan@.map_values(|o: StagedObject| o@) =~= before.push(
                (keys@[k as int]@, staged_name_of(keys@[k as int]@)),
            ));
        }
        k = k + 1;
    }
    assert(all.subrange(0, keys.len() as int) =~= all);
    assert(plan@.map_values(|o: StagedObject| o@) == staging_plan(keys.deep_view()));
    let ghost model = plan@.map_values(|o: StagedObject| o@);
    let mut j: usize = 0;
    while j < plan.len()
        invariant
            j <= plan.len(),
            model == plan@.map_values(|o: StagedObject| o@),
            model == staging_plan(keys.deep_view()),
            forall|a: int, b: int| 0 <= a < b < j ==> model[a].1 != model[b].1,
        decreases plan.len() - j,
    {
        let mut i: usize = 0;
        while i < j
            invariant
                i <= j < plan.len(),
                model == plan@.map_values(|o: StagedObject| o@),
                model == staging_plan(keys.deep_view()),
                forall|a: int| 0 <= a < i ==> model[a].1 != model[j as int].1,
            decreases j - i,
        {
            if plan[i].file_name == plan[j].file_name {
                assert(model[i as int] == plan@[i as int]@);
                assert(model[j as int] == plan@[j as int]@);
                assert(!file_names_distinct(model));
                let first = plan[i].key.clone();
                let second = plan[j].key.clone();
                let e = StagingError::NameCollision { first, second };
                assert(collision_at(model, i as int, j as int, e->first@, e->second@));
                return Err(e);
            }
            i = i + 1;
        }
        j = j + 1;
    }
    assert(file_names_distinct(model));
    Ok(plan)
}

} // verus!
