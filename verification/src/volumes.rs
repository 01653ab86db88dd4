//! Volume listing support: the filter that turns the raw disk list into
//! the volumes shown to the user. The shell enumerates the disks; the
//! filter drops the data volume that shadows a mounted root and keeps,
//! for each duplicated disk name, only a mount point shorter than the one
//! already kept.

use vstd::prelude::*;

verus! {

/// One mounted volume as shown to the user.
#[derive(Debug)]
pub struct VolumeInfo {
    pub name: String,
    pub mount_point: String,
    pub total_space: u64,
    pub available_space: u64,
    pub file_system: String,
    pub is_removable: bool,
}

/// Mathematical model of a volume: the view of a `VolumeInfo`.
pub struct VolumeModel {
    pub name: Seq<char>,
    pub mount_point: Seq<char>,
    pub total_space: u64,
    pub available_space: u64,
    pub file_system: Seq<char>,
    pub is_removable: bool,
}

impl View for VolumeInfo {
    type V = VolumeModel;

    open spec fn view(&self) -> VolumeModel {
        VolumeModel {
            name: self.name@,
            mount_point: self.mount_point@,
            total_space: self.total_space,
            available_space: self.available_space,
            file_system: self.file_system@,
            is_removable: self.is_removable,
        }
    }
}

pub open spec fn volume_views(s: Seq<VolumeInfo>) -> Seq<VolumeModel> {
    Seq::new(s.len(), |i: int| s[i]@)
}

/// One sequence begins with the other.
pub open spec fn starts_with(s: Seq<char>, p: Seq<char>) -> bool {
    p.len() <= s.len() && s.subrange(0, p.len() as int) == p
}

/// Decide whether a string begins with a prefix.
pub fn str_starts_with(s: &str, p: &str) -> (r: bool)
    ensures
        r == starts_with(s@, p@),
{
    let slen = s.unicode_len();
    let plen = p.unicode_len();
    if plen > slen {
        return false;
    }
    let mut i: usize = 0;
    while i < plen
        invariant
            i <= plen,
            plen <= slen,
            slen == s@.len(),
            plen == p@.len(),
            forall|j: int| 0 <= j < i ==> s@[j] == p@[j],
        decreases plen - i,
    {
        let cs = s.get_char(i);
        let cp = p.get_char(i);
        if cs != cp {
            proof {
                assert(s@.subrange(0, p@.len() as int)[i as int] != p@[i as int]);
            }
            return false;
        }
        i = i + 1;
    }
    proof {
        assert(s@.subrange(0, p@.len() as int) =~= p@);
    }
    true
}

/// The record of disk names already kept, with the mount point kept for
/// each; an association sequence with distinct names.
pub open spec fn seen_distinct(seen: Seq<(Seq<char>, Seq<char>)>) -> bool {
    forall|i: int, j: int| 0 <= i < j < seen.len() ==> seen[i].0 != seen[j].0
}

pub open spec fn seen_has(seen: Seq<(Seq<char>, Seq<char>)>, name: Seq<char>) -> bool {
    exists|i: int| 0 <= i < seen.len() && seen[i].0 == name
}

pub open spec fn seen_index(seen: Seq<(Seq<char>, Seq<char>)>, name: Seq<char>) -> int {
    choose|i: int| 0 <= i < seen.len() && seen[i].0 == name
}

pub open spec fn seen_mount(seen: Seq<(Seq<char>, Seq<char>)>, name: Seq<char>) -> Seq<char> {
    seen[seen_index(seen, name)].1
}

/// Whether a raw disk record is kept: not the shadowed data volume, and
/// either an unseen name or a strictly shorter mount point than the one
/// kept for that name.
pub open spec fn keep_volume(v: VolumeModel, seen: Seq<(Seq<char>, Seq<char>)>) -> bool {
    &&& !starts_with(v.mount_point, "/System/Volumes/Data"@)
    &&& (seen_has(seen, v.name) ==> v.mount_point.len() < seen_mount(seen, v.name).len())
}

/// The record after a kept disk: its name now maps to its mount point.
pub open spec fn seen_update(seen: Seq<(Seq<char>, Seq<char>)>, name: Seq<char>, mount: Seq<char>)
    -> Seq<(Seq<char>, Seq<char>)> {
    if seen_has(seen, name) {
        seen.remove(seen_index(seen, name)).push((name, mount))
    } else {
        seen.push((name, mount))
    }
}

/// The filtered volume list, left to right.
pub open spec fn filter_model(s: Seq<VolumeModel>, seen: Seq<(Seq<char>, Seq<char>)>) -> Seq<
    VolumeModel,
>
    decreases s.len(),
{
    if s.len() == 0 {
        Seq::empty()
    } else if keep_volume(s[0], seen) {
        seq![s[0]] + filter_model(
            s.drop_first(),
            seen_update(seen, s[0].name, s[0].mount_point),
        )
    } else {
        filter_model(s.drop_first(), seen)
    }
}

/// With distinct names, any position holding the name is the name's index.
pub proof fn lemma_seen_index_unique(seen: Seq<(Seq<char>, Seq<char>)>, name: Seq<char>, i: int)
    requires
        seen_distinct(seen),
        0 <= i < seen.len(),
        seen[i].0 == name,
    ensures
        seen_has(seen, name),
        seen_index(seen, name) == i,
{
    assert(seen_has(seen, name));
    let j = seen_index(seen, name);
    if i < j {
        assert(seen[i].0 != seen[j].0);
    } else if j < i {
        assert(seen[j].0 != seen[i].0);
    }
}

/// Updating the record keeps names distinct.
pub proof fn lemma_seen_update_distinct(
    seen: Seq<(Seq<char>, Seq<char>)>,
    name: Seq<char>,
    mount: Seq<char>,
)
    requires
        seen_distinct(seen),
    ensures
        seen_distinct(seen_update(seen, name, mount)),
{
    if seen_has(seen, name) {
        let i = seen_index(seen, name);
        let r = seen.remove(i).push((name, mount));
        assert forall|a: int, b: int| 0 <= a < b < r.len() implies r[a].0 != r[b].0 by {
            let a0 = if a < i {
                a
            } else {
                a + 1
            };
            if b < r.len() - 1 {
                let b0 = if b < i {
                    b
                } else {
                    b + 1
                };
                assert(r[a] == seen[a0] && r[b] == seen[b0]);
            } else {
                assert(r[a] == seen[a0]);
                assert(a0 != i);
                if a0 < i {
                    assert(seen[a0].0 != seen[i].0);
                } else {
                    assert(seen[i].0 != seen[a0].0);
                }
            }
        }
    } else {
        let r = seen.push((name, mount));
        assert forall|a: int, b: int| 0 <= a < b < r.len() implies r[a].0 != r[b].0 by {
            if b == r.len() - 1 {
                assert(r[a] == seen[a]);
                assert(seen[a].0 != name);
            }
        }
    }
}

/// One step of the filter over a prefix of the raw disk list.
pub proof fn lemma_filter_model_snoc(
    s: Seq<VolumeModel>,
    seen: Seq<(Seq<char>, Seq<char>)>,
    i: int,
)
    requires
        0 <= i < s.len(),
    ensures
        ({
            let pre = filter_model(s.take(i), seen);
            let seen_i = filter_seen(s.take(i), seen);
            filter_model(s.take(i + 1), seen) == (if keep_volume(s[i], seen_i) {
                pre.push(s[i])
            } else {
                pre
            })
        }),
    decreases i,
{
    let u = s.take(i + 1);
    let v = s.take(i);
    if i == 0 {
        assert(v =~= Seq::<VolumeModel>::empty());
        assert(filter_model(v, seen) == Seq::<VolumeModel>::empty());
        assert(u.len() == 1 && u[0] == s[0]);
        assert(u.drop_first() =~= Seq::<VolumeModel>::empty());
        if keep_volume(s[0], seen) {
            let seen1 = seen_update(seen, s[0].name, s[0].mount_point);
            assert(filter_model(u.drop_first(), seen1) == Seq::<VolumeModel>::empty());
            assert(filter_model(u, seen) == seq![s[0]] + filter_model(u.drop_first(), seen1));
            assert(seq![s[0]] + Seq::<VolumeModel>::empty() =~= filter_model(v, seen).push(s[0]));
        } else {
            assert(filter_model(u, seen) == filter_model(u.drop_first(), seen));
            assert(filter_model(u.drop_first(), seen) == Seq::<VolumeModel>::empty());
        }
    } else {
        assert(u[0] == s[0] && v[0] == s[0]);
        assert(u.drop_first() =~= s.drop_first().take(i));
        assert(v.drop_first() =~= s.drop_first().take(i - 1));
        assert(s.drop_first()[i - 1] == s[i]);
        if keep_volume(s[0], seen) {
            let seen1 = seen_update(seen, s[0].name, s[0].mount_point);
            lemma_filter_model_snoc(s.drop_first(), seen1, i - 1);
            assert(seq![s[0]] + filter_model(s.drop_first().take(i - 1), seen1).push(s[i]) =~= (
            seq![s[0]] + filter_model(s.drop_first().take(i - 1), seen1)).push(s[i]));
        } else {
            lemma_filter_model_snoc(s.drop_first(), seen, i - 1);
        }
    }
}

/// The record the filter holds after a run of raw disk records.
pub open spec fn filter_seen(s: Seq<VolumeModel>, seen: Seq<(Seq<char>, Seq<char>)>) -> Seq<
    (Seq<char>, Seq<char>),
>
    decreases s.len(),
{
    if s.len() == 0 {
        seen
    } else if keep_volume(s[0], seen) {
        filter_seen(s.drop_first(), seen_update(seen, s[0].name, s[0].mount_point))
    } else {
        filter_seen(s.drop_first(), seen)
    }
}

/// One step of the record over a prefix of the raw disk list.
pub proof fn lemma_filter_seen_snoc(s: Seq<VolumeModel>, seen: Seq<(Seq<char>, Seq<char>)>, i: int)
    requires
        0 <= i < s.len(),
    ensures
        ({
            let seen_i = filter_seen(s.take(i), seen);
            filter_seen(s.take(i + 1), seen) == (if keep_volume(s[i], seen_i) {
                seen_update(seen_i, s[i].name, s[i].mount_point)
            } else {
                seen_i
            })
        }),
    decreases i,
{
    let u = s.take(i + 1);
    let v = s.take(i);
    if i == 0 {
        assert(v =~= Seq::<VolumeModel>::empty());
        assert(filter_seen(v, seen) == seen);
        assert(u.len() == 1 && u[0] == s[0]);
        assert(u.drop_first() =~= Seq::<VolumeModel>::empty());
        if keep_volume(s[0], seen) {
            let seen1 = seen_update(seen, s[0].name, s[0].mount_point);
            assert(filter_seen(u, seen) == filter_seen(u.drop_first(), seen1));
            assert(filter_seen(u.drop_first(), seen1) == seen1);
        } else {
            assert(filter_seen(u, seen) == filter_seen(u.drop_first(), seen));
            assert(filter_seen(u.drop_first(), seen) == seen);
        }
    } else {
        assert(u[0] == s[0] && v[0] == s[0]);
        assert(u.drop_first() =~= s.drop_first().take(i));
        assert(v.drop_first() =~= s.drop_first().take(i - 1));
        assert(s.drop_first()[i - 1] == s[i]);
        if keep_volume(s[0], seen) {
            lemma_filter_seen_snoc(
                s.drop_first(),
                seen_update(seen, s[0].name, s[0].mount_point),
                i - 1,
            );
        } else {
            lemma_filter_seen_snoc(s.drop_first(), seen, i - 1);
        }
    }
}

/// Filter the raw disk list: drop the shadowed data volume, and for each
/// duplicated disk name keep a record only when its mount point is
/// strictly shorter than the one already kept. (A longer duplicate that
/// arrives later is dropped; an earlier one already emitted stays, as the
/// record tracks only what was kept.)
pub fn filter_volumes(disks: Vec<VolumeInfo>) -> (r: Vec<VolumeInfo>)
    ensures
        volume_views(r@) == filter_model(volume_views(disks@), Seq::empty()),
{
    let ghost ds = volume_views(disks@);
    let mut out: Vec<VolumeInfo> = Vec::new();
    let mut seen: Vec<(String, String)> = Vec::new();
    let ghost seen0 = Seq::<(Seq<char>, Seq<char>)>::empty();
    let mut i: usize = 0;
    proof {
        assert(seen_views(seen@) =~= seen0);
        assert(ds.take(0) =~= Seq::<VolumeModel>::empty());
    }
    while i < disks.len()
        invariant
            i <= disks.len(),
            ds == volume_views(disks@),
            ds.len() == disks@.len(),
            seen_distinct(seen_views(seen@)),
            seen_views(seen@) == filter_seen(ds.take(i as int), seen0),
            volume_views(out@) == filter_model(ds.take(i as int), seen0),
        decreases disks@.len() - i,
    {
        let ghost seen_i = seen_views(seen@);
        let ghost pre = filter_model(ds.take(i as int), seen0);
        let d = &disks[i];
        proof {
            assert(d@ == ds[i as int]);
            lemma_filter_model_snoc(ds, seen0, i as int);
            lemma_filter_seen_snoc(ds, seen0, i as int);
        }
        let shadowed = str_starts_with(d.mount_point.as_str(), "/System/Volumes/Data");
        let mut kept: bool = !shadowed;
        let mut found: Option<usize> = None;
        let n = seen.len();
        let mut j: usize = 0;
        while j < n
            invariant_except_break
                found is None,
            invariant
                j <= n,
                n == seen@.len(),
                seen_distinct(seen_views(seen@)),
                seen_i == seen_views(seen@),
                forall|k: int| 0 <= k < j ==> seen_views(seen@)[k].0 != d@.name,
            ensures
                seen_i == seen_views(seen@),
                match found {
                    Some(k) => k < seen@.len() && seen_views(seen@)[k as int].0 == d@.name,
                    None => forall|k: int|
                        0 <= k < seen@.len() ==> seen_views(seen@)[k].0 != d@.name,
                },
            decreases n - j,
        {
            if seen[j].0 == d.name {
                found = Some(j);
                break ;
            }
            j = j + 1;
        }
        match found {
            Some(k) => {
                proof {
                    lemma_seen_index_unique(seen_i, d@.name, k as int);
                }
                let existing_len = seen[k].1.unicode_len();
                let mount_len = d.mount_point.unicode_len();
                if mount_len >= existing_len {
                    kept = false;
                }
                if kept {
                    let _ = seen.remove(k);
                    seen.push((d.name.clone(), d.mount_point.clone()));
                    proof {
                        assert(seen_views(seen@) =~= seen_update(
                            seen_i,
                            d@.name,
                            d@.mount_point,
                        ));
                        lemma_seen_update_distinct(seen_i, d@.name, d@.mount_point);
                    }
                }
            },
            None => {
                proof {
                    assert(!seen_has(seen_i, d@.name)) by {
                        if seen_has(seen_i, d@.name) {
                            let w = seen_index(seen_i, d@.name);
                            assert(seen_i[w].0 == d@.name);
                        }
                    }
                }
                if kept {
                    seen.push((d.name.clone(), d.mount_point.clone()));
                    proof {
                        assert(seen_views(seen@) =~= seen_update(
                            seen_i,
                            d@.name,
                            d@.mount_point,
                        ));
                        lemma_seen_update_distinct(seen_i, d@.name, d@.mount_point);
                    }
                }
            },
        }
        if kept {
            let copy = VolumeInfo {
                name: d.name.clone(),
                mount_point: d.mount_point.clone(),
                total_space: d.total_space,
                available_space: d.available_space,
                file_system: d.file_system.clone(),
                is_removable: d.is_removable,
            };
            proof {
                assert(copy@ == d@);
                assert(keep_volume(ds[i as int], seen_i));
            }
            out.push(copy);
            proof {
                assert(volume_views(out@) =~= pre.push(ds[i as int]));
            }
        } else {
            proof {
                assert(!keep_volume(ds[i as int], seen_i));
            }
        }
        i = i + 1;
    }
    proof {
        assert(ds.take(ds.len() as int) =~= ds);
    }
    out
}

pub open spec fn seen_views(s: Seq<(String, String)>) -> Seq<(Seq<char>, Seq<char>)> {
    Seq::new(s.len(), |i: int| (s[i].0@, s[i].1@))
}

} // verus!
