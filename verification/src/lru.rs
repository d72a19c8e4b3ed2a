//! The cache of cover pictures: bounded, and rid of what was not looked at longest.
use vstd::prelude::*;

verus! {

pub struct Entry<T> {
    pub hash: String,
    pub size: i32,
    pub value: T,
}

/// Pictures by hash and size, the least recently used first.
pub struct LruCache<T> {
    pub entries: Vec<Entry<T>>,
    pub cap: usize,
}

/// The place of a key, or the length.
pub open spec fn place<T>(s: Seq<Entry<T>>, hash: Seq<char>, size: i32) -> int
    decreases s.len(),
{
    if s.len() == 0 || (s[0].hash@ == hash && s[0].size == size) {
        0
    } else {
        1 + place(s.skip(1), hash, size)
    }
}

proof fn lemma_place<T>(s: Seq<Entry<T>>, hash: Seq<char>, size: i32, k: int)
    requires
        0 <= k <= s.len(),
        forall|i: int|
            0 <= i < k ==> !((#[trigger] s[i]).hash@ == hash && s[i].size == size),
        k < s.len() ==> s[k].hash@ == hash && s[k].size == size,
    ensures
        place(s, hash, size) == k,
    decreases s.len(),
{
    if s.len() > 0 && k > 0 {
        assert(!(s[0].hash@ == hash && s[0].size == size));
        let t = s.skip(1);
        assert forall|i: int| 0 <= i < k - 1 implies !((#[trigger] t[i]).hash@ == hash && t[i].size
            == size) by {
            assert(t[i] == s[i + 1]);
        }
        lemma_place(t, hash, size, k - 1);
    }
}

/// The entries after one is looked at: it becomes the most recently used.
pub open spec fn touched<T>(s: Seq<Entry<T>>, k: int) -> Seq<Entry<T>> {
    s.remove(k).push(s[k])
}

/// The entries after one is put in. A new key in a full cache takes the place of the least
/// recently used one.
pub open spec fn inserted<T>(s: Seq<Entry<T>>, cap: nat, e: Entry<T>) -> Seq<Entry<T>> {
    let k = place(s, e.hash@, e.size);
    let kept = if k < s.len() {
        s.remove(k)
    } else if s.len() >= cap && s.len() > 0 {
        s.skip(1)
    } else {
        s
    };
    kept.push(e)
}

impl<T> LruCache<T> {
    /// No key twice, and no more entries than allowed (one is always kept).
    pub open spec fn wf(self) -> bool {
        &&& self.entries@.len() <= (if self.cap == 0 {
            1
        } else {
            self.cap as int
        })
        &&& forall|i: int, j: int|
            0 <= i < j < self.entries@.len() ==> !((#[trigger] self.entries@[i]).hash@ == (
            #[trigger] self.entries@[j]).hash@ && self.entries@[i].size == self.entries@[j].size)
    }

    pub open spec fn has(self, hash: Seq<char>, size: i32) -> bool {
        place(self.entries@, hash, size) < self.entries@.len()
    }

    pub fn new(cap: usize) -> (c: Self)
        ensures
            c.wf(),
            c.cap == cap,
            c.entries@ == Seq::<Entry<T>>::empty(),
    {
        LruCache { entries: Vec::new(), cap }
    }

    fn find(&self, hash: &String, size: i32) -> (k: usize)
        ensures
            k == place(self.entries@, hash@, size),
            k <= self.entries@.len(),
            k < self.entries@.len() ==> self.entries@[k as int].hash@ == hash@ && self.entries@[
                k as int
            ].size == size,
            forall|i: int|
                0 <= i < k ==> !((#[trigger] self.entries@[i]).hash@ == hash@
                    && self.entries@[i].size == size),
    {
        let mut k: usize = 0;
        while k < self.entries.len()
            invariant
                k <= self.entries@.len(),
                forall|i: int|
                    0 <= i < k ==> !((#[trigger] self.entries@[i]).hash@ == hash@
                        && self.entries@[i].size == size),
            decreases self.entries@.len() - k,
        {
            if self.entries[k].size == size && self.entries[k].hash == *hash {
                proof {
                    lemma_place(self.entries@, hash@, size, k as int);
                }
                return k;
            }
            k = k + 1;
        }
        proof {
            lemma_place(self.entries@, hash@, size, k as int);
        }
        k
    }

    /// Looks a picture up; one that is found becomes the most recently used.
    pub fn get(&mut self, hash: &String, size: i32) -> (r: Option<&T>)
        requires
            old(self).wf(),
        ensures
            final(self).wf(),
            final(self).cap == old(self).cap,
            r is Some <==> old(self).has(hash@, size),
            ({
                let k = place(old(self).entries@, hash@, size);
                match r {
                    Some(v) => {
                        &&& *v == old(self).entries@[k].value
                        &&& final(self).entries@ == touched(old(self).entries@, k)
                    },
                    None => final(self).entries@ == old(self).entries@,
                }
            }),
    {
        let k: usize = self.find(hash, size);
        if k >= self.entries.len() {
            return None;
        }
        let ghost before = self.entries@;
        let e = self.entries.remove(k);
        self.entries.push(e);
        proof {
            lemma_moved_back(before, k as int);
        }
        let n: usize = self.entries.len();
        Some(&self.entries[n - 1].value)
    }

    /// Puts a picture in as the most recently used.
    pub fn insert(&mut self, hash: String, size: i32, value: T)
        requires
            old(self).wf(),
        ensures
            final(self).wf(),
            final(self).cap == old(self).cap,
            final(self).entries@ == inserted(
                old(self).entries@,
                old(self).cap as nat,
                Entry { hash, size, value },
            ),
    {
        let k: usize = self.find(&hash, size);
        let ghost before = self.entries@;
        if k < self.entries.len() {
            let _old = self.entries.remove(k);
        } else if self.entries.len() >= self.cap && self.entries.len() > 0 {
            let _old = self.entries.remove(0);
            assert(self.entries@ =~= before.skip(1));
        }
        self.entries.push(Entry { hash, size, value });
        proof {
            let now = self.entries@;
            assert forall|i: int, j: int| 0 <= i < j < now.len() implies !((
            #[trigger] now[i]).hash@ == (#[trigger] now[j]).hash@ && now[i].size == now[j].size) by {
                let di: int = if k < before.len() && i >= k {
                    i + 1
                } else if k >= before.len() && before.len() == now.len() {
                    i + 1
                } else {
                    i
                };
                assert(now[i] == before[di]);
                if j < now.len() - 1 {
                    let dj: int = if k < before.len() && j >= k {
                        j + 1
                    } else if k >= before.len() && before.len() == now.len() {
                        j + 1
                    } else {
                        j
                    };
                    assert(now[j] == before[dj]);
                } else {
                    assert(di != k);
                    if di > k {
                        assert(before[k as int].hash@ == hash@);
                        assert(!(before[k as int].hash@ == before[di].hash@ && before[k as int].size
                            == before[di].size));
                    }
                }
            }
        }
    }
}

proof fn lemma_moved_back<T>(s: Seq<Entry<T>>, k: int)
    requires
        0 <= k < s.len(),
        forall|i: int, j: int|
            0 <= i < j < s.len() ==> !((#[trigger] s[i]).hash@ == (#[trigger] s[j]).hash@
                && s[i].size == s[j].size),
    ensures
        forall|i: int, j: int|
            0 <= i < j < s.len() ==> !((#[trigger] s.remove(k).push(s[k])[i]).hash@ == (
            #[trigger] s.remove(k).push(s[k])[j]).hash@ && s.remove(k).push(s[k])[i].size
                == s.remove(k).push(s[k])[j].size),
{
    let t = s.remove(k).push(s[k]);
    assert forall|i: int, j: int| 0 <= i < j < s.len() implies !((#[trigger] t[i]).hash@ == (
    #[trigger] t[j]).hash@ && t[i].size == t[j].size) by {
        let di = if i < k {
            i
        } else {
            i + 1
        };
        assert(t[i] == s[di]);
        if j == s.len() - 1 {
            assert(t[j] == s[k]);
            if di < k {
                assert(!(s[di].hash@ == s[k].hash@ && s[di].size == s[k].size));
            } else {
                assert(!(s[k].hash@ == s[di].hash@ && s[k].size == s[di].size));
            }
        } else {
            let dj = if j < k {
                j
            } else {
                j + 1
            };
            assert(t[j] == s[dj]);
            assert(!(s[di].hash@ == s[dj].hash@ && s[di].size == s[dj].size));
        }
    }
}

/// The cache is bounded: putting a picture in never makes it larger than allowed.
pub proof fn law_cache_is_bounded<T>(s: Seq<Entry<T>>, cap: nat, e: Entry<T>)
    requires
        s.len() <= cap,
        cap > 0,
    ensures
        inserted(s, cap, e).len() <= cap,
        inserted(s, cap, e).last() == e,
{
    lemma_place_bound(s, e.hash@, e.size);
}

proof fn lemma_place_bound<T>(s: Seq<Entry<T>>, hash: Seq<char>, size: i32)
    ensures
        0 <= place(s, hash, size) <= s.len(),
    decreases s.len(),
{
    if s.len() > 0 {
        lemma_place_bound(s.skip(1), hash, size);
    }
}

/// What was used longest ago goes first: a picture that has just been looked at survives the
/// next insertion of another one, and the one that went is the least recently used.
pub proof fn law_least_recent_goes<T>(s: Seq<Entry<T>>, cap: nat, k: int, e: Entry<T>)
    requires
        0 <= k < s.len(),
        2 <= cap,
        place(touched(s, k), e.hash@, e.size) == s.len(),
    ensures
        inserted(touched(s, k), cap, e).contains(s[k]),
        s.len() >= cap ==> inserted(touched(s, k), cap, e) == touched(s, k).skip(1).push(e),
{
    let t = touched(s, k);
    let after = inserted(t, cap, e);
    assert(t.last() == s[k]);
    if s.len() >= cap {
        assert(t.skip(1).last() == s[k]);
        assert(after[after.len() - 2] == s[k]);
    } else {
        assert(after[after.len() - 2] == s[k]);
    }
}

/// A picture that is being loaded.
pub struct ArtKey {
    pub hash: String,
    pub size: i32,
}

/// The pictures that are being loaded: each once, however many wait for it.
pub struct ArtLoads {
    pub keys: Vec<ArtKey>,
}

pub open spec fn loading(keys: Seq<ArtKey>, hash: Seq<char>, size: i32) -> bool {
    exists|i: int| 0 <= i < keys.len() && (#[trigger] keys[i]).hash@ == hash && keys[i].size == size
}

impl ArtLoads {
    pub fn new() -> (l: Self)
        ensures
            forall|h: Seq<char>, n: i32| !loading(l.keys@, h, n),
    {
        ArtLoads { keys: Vec::new() }
    }

    /// Asks for a picture that is not in the cache. Returns whether to load it; if not, it is
    /// being loaded already.
    pub fn request(&mut self, hash: &String, size: i32) -> (load: bool)
        ensures
            load == !loading(old(self).keys@, hash@, size),
            forall|h: Seq<char>, n: i32|
                loading(final(self).keys@, h, n) <==> (loading(old(self).keys@, h, n) || (h == hash@
                    && n == size)),
    {
        let ghost before = self.keys@;
        for i in 0..self.keys.len()
            invariant
                self.keys@ == before,
                before == old(self).keys@,
                forall|j: int|
                    0 <= j < i ==> !((#[trigger] before[j]).hash@ == hash@ && before[j].size
                        == size),
        {
            if self.keys[i].size == size && self.keys[i].hash == *hash {
                assert(before[i as int].hash@ == hash@);
                return false;
            }
        }
        self.keys.push(ArtKey { hash: hash.clone(), size });
        proof {
            let after = self.keys@;
            assert(after[before.len() as int].hash@ == hash@);
            assert forall|h: Seq<char>, n: i32| loading(before, h, n) implies loading(
                after,
                h,
                n,
            ) by {
                let j = choose|j: int|
                    0 <= j < before.len() && (#[trigger] before[j]).hash@ == h && before[j].size
                        == n;
                assert(after[j] == before[j]);
            }
            assert forall|h: Seq<char>, n: i32| loading(after, h, n) implies loading(before, h, n)
                || (h == hash@ && n == size) by {
                let j = choose|j: int|
                    0 <= j < after.len() && (#[trigger] after[j]).hash@ == h && after[j].size == n;
                if j < before.len() {
                    assert(before[j] == after[j]);
                }
            }
        }
        true
    }

    /// A picture is loaded, or could not be.
    pub fn finish(&mut self, hash: &String, size: i32)
        ensures
            !loading(final(self).keys@, hash@, size),
            forall|h: Seq<char>, n: i32|
                loading(final(self).keys@, h, n) <==> (loading(old(self).keys@, h, n) && !(h
                    == hash@ && n == size)),
    {
        let ghost before = self.keys@;
        let mut i: usize = 0;
        while i < self.keys.len()
            invariant
                i <= self.keys@.len(),
                before == old(self).keys@,
                forall|j: int|
                    0 <= j < i ==> !((#[trigger] self.keys@[j]).hash@ == hash@ && self.keys@[j].size
                        == size),
                forall|h: Seq<char>, n: i32|
                    !(h == hash@ && n == size) ==> (loading(self.keys@, h, n) <==> loading(
                        before,
                        h,
                        n,
                    )),
            decreases self.keys@.len() - i,
        {
            if self.keys[i].size == size && self.keys[i].hash == *hash {
                let ghost was = self.keys@;
                let _gone = self.keys.remove(i);
                proof {
                    let now = self.keys@;
                    assert forall|h: Seq<char>, n: i32| !(h == hash@ && n == size) implies (loading(
                        now,
                        h,
                        n,
                    ) <==> loading(before, h, n)) by {
                        assert(loading(was, h, n) <==> loading(before, h, n));
                        if loading(was, h, n) {
                            let j = choose|j: int|
                                0 <= j < was.len() && (#[trigger] was[j]).hash@ == h && was[j].size
                                    == n;
                            if j < i {
                                assert(now[j] == was[j]);
                            } else {
                                assert(j != i);
                                assert(now[j - 1] == was[j]);
                            }
                        }
                        if loading(now, h, n) {
                            let j = choose|j: int|
                                0 <= j < now.len() && (#[trigger] now[j]).hash@ == h && now[j].size
                                    == n;
                            if j < i {
                                assert(was[j] == now[j]);
                            } else {
                                assert(was[j + 1] == now[j]);
                            }
                        }
                    }
                }
            } else {
                i = i + 1;
            }
        }
    }
}

/// A picture that was put in is found, under its own key and size, and nothing else is changed
/// but the order: it becomes the most recently used.
pub proof fn law_cached_picture_is_found<T>(
    a: &mut LruCache<T>,
    hash: String,
    size: i32,
    value: T,
    u: (),
    b: &mut LruCache<T>,
    key: &String,
    r: Option<&T>,
)
    requires
        call_ensures(LruCache::<T>::insert, (a, hash, size, value), u),
        call_ensures(LruCache::<T>::get, (b, key, size), r),
        old(a).wf(),
        *old(b) == *final(a),
        key@ == hash@,
    ensures
        r == Some(&value),
        final(a).entries@.last() == (Entry { hash, size, value }),
        final(a).cap == old(a).cap,
{
    let e = Entry { hash, size, value };
    let s = final(a).entries@;
    let n = s.len() - 1;
    lemma_place_bound(old(a).entries@, hash@, size);
    assert(s.last() == e);
    assert(s[n].hash@ == hash@ && s[n].size == size);
    assert(final(a).wf());
    assert forall|i: int| 0 <= i < n implies !((#[trigger] s[i]).hash@ == hash@ && s[i].size
        == size) by {
        assert(!(s[i].hash@ == s[n].hash@ && s[i].size == s[n].size));
    }
    lemma_place(s, hash@, size, n);
}

/// A look-up finds the picture of the key and size that it asks for, if there is one, and makes
/// it the most recently used; a key that is not there changes nothing.
pub proof fn law_lookup_goes_by_key_and_size<T>(
    c: &mut LruCache<T>,
    key: &String,
    size: i32,
    r: Option<&T>,
    k: int,
)
    requires
        call_ensures(LruCache::<T>::get, (c, key, size), r),
        old(c).wf(),
        0 <= k < old(c).entries@.len(),
    ensures
        old(c).entries@[k].hash@ == key@ && old(c).entries@[k].size == size ==> {
            &&& r == Some(&old(c).entries@[k].value)
            &&& final(c).entries@ == old(c).entries@.remove(k).push(old(c).entries@[k])
        },
        r is None ==> final(c).entries@ == old(c).entries@,
        r is Some ==> exists|i: int|
            0 <= i < old(c).entries@.len() && (#[trigger] old(c).entries@[i]).hash@ == key@ && old(
                c,
            ).entries@[i].size == size,
{
    let s = old(c).entries@;
    lemma_place_found(s, key@, size);
    if s[k].hash@ == key@ && s[k].size == size {
        assert forall|i: int| 0 <= i < k implies !((#[trigger] s[i]).hash@ == key@ && s[i].size
            == size) by {
            assert(!(s[i].hash@ == s[k].hash@ && s[i].size == s[k].size));
        }
        lemma_place(s, key@, size, k);
    }
}

proof fn lemma_place_found<T>(s: Seq<Entry<T>>, hash: Seq<char>, size: i32)
    ensures
        0 <= place(s, hash, size) <= s.len(),
        place(s, hash, size) < s.len() ==> s[place(s, hash, size)].hash@ == hash && s[place(
            s,
            hash,
            size,
        )].size == size,
        forall|i: int|
            0 <= i < place(s, hash, size) ==> !((#[trigger] s[i]).hash@ == hash && s[i].size
                == size),
    decreases s.len(),
{
    if s.len() > 0 && !(s[0].hash@ == hash && s[0].size == size) {
        let t = s.skip(1);
        lemma_place_found(t, hash, size);
        let k = place(s, hash, size);
        assert forall|i: int| 0 <= i < k implies !((#[trigger] s[i]).hash@ == hash && s[i].size
            == size) by {
            if i > 0 {
                assert(t[i - 1] == s[i]);
            }
        }
    }
}

/// A full cache gives up the picture that was used longest ago for a new one, and keeps all
/// others in their order; with room to spare it gives up nothing.
pub proof fn law_new_picture_takes_the_oldest_place<T>(
    c: &mut LruCache<T>,
    hash: String,
    size: i32,
    value: T,
    u: (),
    k: int,
)
    requires
        call_ensures(LruCache::<T>::insert, (c, hash, size, value), u),
        old(c).wf(),
        forall|i: int|
            0 <= i < old(c).entries@.len() ==> !((#[trigger] old(c).entries@[i]).hash@ == hash@
                && old(c).entries@[i].size == size),
        0 <= k,
    ensures
        final(c).entries@.last() == (Entry { hash, size, value }),
        old(c).entries@.len() < old(c).cap || old(c).entries@.len() == 0 ==> {
            &&& final(c).entries@.len() == old(c).entries@.len() + 1
            &&& k < old(c).entries@.len() ==> final(c).entries@[k] == old(c).entries@[k]
        },
        old(c).entries@.len() >= old(c).cap && old(c).entries@.len() > 0 ==> {
            &&& final(c).entries@.len() == old(c).entries@.len()
            &&& k + 1 < old(c).entries@.len() ==> final(c).entries@[k] == old(c).entries@[k + 1]
        },
{
    lemma_place(old(c).entries@, hash@, size, old(c).entries@.len() as int);
}

/// A cache starts empty, under the bound that it was given.
pub proof fn law_new_cache_is_empty<T>(cap: usize, c: LruCache<T>)
    requires
        call_ensures(LruCache::<T>::new, (cap,), c),
    ensures
        c.cap == cap,
        c.entries@.len() == 0,
{
}

/// A picture is loaded once at a time: it is asked for only if it is not being loaded, and can be
/// asked for again once it came, or could not.
pub proof fn law_pictures_load_once(
    a: &mut ArtLoads,
    hash: &String,
    size: i32,
    x: bool,
    b: &mut ArtLoads,
    y: bool,
    c: &mut ArtLoads,
    u: (),
    d: &mut ArtLoads,
    z: bool,
)
    requires
        call_ensures(ArtLoads::request, (a, hash, size), x),
        call_ensures(ArtLoads::request, (b, hash, size), y),
        call_ensures(ArtLoads::finish, (c, hash, size), u),
        call_ensures(ArtLoads::request, (d, hash, size), z),
        *old(b) == *final(a),
        *old(c) == *final(b),
        *old(d) == *final(c),
    ensures
        x <==> !loading(old(a).keys@, hash@, size),
        !y,
        z,
{
    assert(loading(final(a).keys@, hash@, size));
}

/// Loading one picture says nothing of another, and a new list loads none.
pub proof fn law_loads_are_independent(
    a: &mut ArtLoads,
    hash: &String,
    size: i32,
    x: bool,
    c: &mut ArtLoads,
    u: (),
    other: Seq<char>,
    n: i32,
    f: ArtLoads,
)
    requires
        call_ensures(ArtLoads::request, (a, hash, size), x),
        call_ensures(ArtLoads::finish, (c, hash, size), u),
        call_ensures(ArtLoads::new, (), f),
        other != hash@ || n != size,
    ensures
        loading(final(a).keys@, other, n) <==> loading(old(a).keys@, other, n),
        loading(final(c).keys@, other, n) <==> loading(old(c).keys@, other, n),
        !loading(f.keys@, other, n),
{
}

/// A picture that is put in again replaces the one under its key and gives up no other: the
/// others stay, in their order.
pub proof fn law_same_key_replaces<T>(
    c: &mut LruCache<T>,
    hash: String,
    size: i32,
    value: T,
    u: (),
    k: int,
)
    requires
        call_ensures(LruCache::<T>::insert, (c, hash, size, value), u),
        old(c).wf(),
        0 <= k < old(c).entries@.len(),
        old(c).entries@[k].hash@ == hash@,
        old(c).entries@[k].size == size,
    ensures
        final(c).entries@ == old(c).entries@.remove(k).push(Entry { hash, size, value }),
{
    let s = old(c).entries@;
    assert forall|i: int| 0 <= i < k implies !((#[trigger] s[i]).hash@ == hash@ && s[i].size
        == size) by {
        assert(!(s[i].hash@ == s[k].hash@ && s[i].size == s[k].size));
    }
    lemma_place(s, hash@, size, k);
}

} // verus!
