use std::cell::RefCell;
use std::collections::BTreeMap;
use std::rc::Rc;

use crdt_enc::cipher::EncHandler;
use crdt_enc::crdt::mvreg::{MVReg, MVRegOp};
use crdt_enc::error::Error;
use crdt_enc::key_cryptor::KeyHandler;
use crdt_enc::storage::{content_name, Storage};
use crdt_enc::utils::version_bytes::VersionBytes;
use crdt_enc::{Core, Info, OpenOptions};

const CURRENT_DATA_VERSION: u128 = 0xaadfd5a6_6e19_4b24_a802_4fa27c72f20c;

/// The remote blob area a set of replicas shares.
#[derive(Default)]
struct Remote {
    metas: BTreeMap<String, Vec<u8>>,
    states: BTreeMap<String, Vec<u8>>,
    ops: BTreeMap<(u128, u64), Vec<u8>>,
}

/// An in-memory blob store: a per-replica local slot and a shared remote.
#[derive(Clone)]
struct MemStorage {
    local: Rc<RefCell<Option<Vec<u8>>>>,
    remote: Rc<RefCell<Remote>>,
}

impl MemStorage {
    fn new(local: Rc<RefCell<Option<Vec<u8>>>>, remote: Rc<RefCell<Remote>>) -> MemStorage {
        MemStorage { local, remote }
    }
}

impl Storage for MemStorage {
    fn set_info(&mut self, _info: &Info) -> Result<(), Error> {
        Ok(())
    }

    fn set_remote_meta(&mut self, _data: Option<&MVReg<VersionBytes>>) -> Result<(), Error> {
        Ok(())
    }

    fn load_local_meta(&self) -> Result<Option<VersionBytes>, Error> {
        match &*self.local.borrow() {
            Some(bytes) => Ok(Some(
                VersionBytes::deserialize(bytes).map_err(|_| Error::FramingInvalid)?,
            )),
            None => Ok(None),
        }
    }

    fn store_local_meta(&mut self, data: VersionBytes) -> Result<(), Error> {
        *self.local.borrow_mut() = Some(data.serialize());
        Ok(())
    }

    fn list_remote_meta_names(&self) -> Result<Vec<String>, Error> {
        Ok(self.remote.borrow().metas.keys().cloned().collect())
    }

    fn load_remote_metas(&self, names: Vec<String>) -> Result<Vec<(String, VersionBytes)>, Error> {
        let remote = self.remote.borrow();
        names
            .into_iter()
            .map(|name| {
                let bytes = remote.metas.get(&name).ok_or(Error::StorageFailure)?;
                let vb = VersionBytes::deserialize(bytes).map_err(|_| Error::FramingInvalid)?;
                Ok((name, vb))
            })
            .collect()
    }

    fn store_remote_meta(&mut self, data: VersionBytes) -> Result<String, Error> {
        let name = content_name(&data);
        self.remote.borrow_mut().metas.insert(name.clone(), data.serialize());
        Ok(name)
    }

    fn remove_remote_metas(&mut self, names: Vec<String>) -> Result<(), Error> {
        let mut remote = self.remote.borrow_mut();
        for name in names {
            remote.metas.remove(&name);
        }
        Ok(())
    }

    fn list_state_names(&self) -> Result<Vec<String>, Error> {
        Ok(self.remote.borrow().states.keys().cloned().collect())
    }

    fn load_states(&self, names: Vec<String>) -> Result<Vec<(String, VersionBytes)>, Error> {
        let remote = self.remote.borrow();
        names
            .into_iter()
            .map(|name| {
                let bytes = remote.states.get(&name).ok_or(Error::StorageFailure)?;
                let vb = VersionBytes::deserialize(bytes).map_err(|_| Error::FramingInvalid)?;
                Ok((name, vb))
            })
            .collect()
    }

    fn store_state(&mut self, data: VersionBytes) -> Result<String, Error> {
        let name = content_name(&data);
        self.remote.borrow_mut().states.insert(name.clone(), data.serialize());
        Ok(name)
    }

    fn remove_states(&mut self, names: Vec<String>) -> Result<Vec<String>, Error> {
        let mut remote = self.remote.borrow_mut();
        let mut removed = Vec::new();
        for name in names {
            if remote.states.remove(&name).is_some() {
                removed.push(name);
            }
        }
        Ok(removed)
    }

    fn list_op_actors(&self) -> Result<Vec<u128>, Error> {
        let remote = self.remote.borrow();
        let mut actors: Vec<u128> = Vec::new();
        for (actor, _) in remote.ops.keys() {
            if !actors.contains(actor) {
                actors.push(*actor);
            }
        }
        Ok(actors)
    }

    fn load_ops(
        &self,
        actor_first_versions: Vec<(u128, u64)>,
    ) -> Result<Vec<(u128, u64, VersionBytes)>, Error> {
        let remote = self.remote.borrow();
        let mut out = Vec::new();
        for (actor, first_version) in actor_first_versions {
            let mut version = first_version;
            while let Some(bytes) = remote.ops.get(&(actor, version)) {
                let vb = VersionBytes::deserialize(bytes).map_err(|_| Error::FramingInvalid)?;
                out.push((actor, version, vb));
                version += 1;
            }
        }
        Ok(out)
    }

    fn store_ops(&mut self, actor: u128, version: u64, data: VersionBytes) -> Result<(), Error> {
        let mut remote = self.remote.borrow_mut();
        if remote.ops.contains_key(&(actor, version)) {
            return Err(Error::Integrity);
        }
        remote.ops.insert((actor, version), data.serialize());
        Ok(())
    }

    fn remove_ops(&mut self, actor_last_versions: Vec<(u128, u64)>) -> Result<(), Error> {
        let mut remote = self.remote.borrow_mut();
        for key in actor_last_versions {
            remote.ops.remove(&key);
        }
        Ok(())
    }
}

type TestCore = Core<MVReg<u64>, MemStorage, EncHandler, KeyHandler>;

fn open_replica(
    local: Rc<RefCell<Option<Vec<u8>>>>,
    remote: Rc<RefCell<Remote>>,
    create: bool,
) -> Result<(TestCore, Info), Error> {
    Core::open(OpenOptions {
        storage: MemStorage::new(local, remote),
        cryptor: EncHandler::new(),
        key_cryptor: KeyHandler::new(),
        create,
        supported_data_versions: vec![CURRENT_DATA_VERSION],
        current_data_version: CURRENT_DATA_VERSION,
    })
}

fn write_value(core: &mut TestCore, info: &Info, value: u64) {
    let actor = info.actor();
    let op: MVRegOp<u64> = core.with_state(|s: &MVReg<u64>| {
        let read = s.read();
        let ctx = read.derive_add_ctx(actor);
        s.write(value, ctx)
    });
    core.apply_ops(vec![op]).unwrap();
}

fn observed(core: &TestCore) -> Vec<u64> {
    let mut vals = core.with_state(|s: &MVReg<u64>| s.read().val);
    vals.sort_unstable();
    vals
}

#[test]
fn open_create_write_read() {
    let remote = Rc::new(RefCell::new(Remote::default()));
    let local = Rc::new(RefCell::new(None));

    let (mut a, info) = open_replica(local.clone(), remote.clone(), true).unwrap();
    write_value(&mut a, &info, 1);
    drop(a);

    let (mut a2, info2) = open_replica(local.clone(), remote.clone(), true).unwrap();
    assert_eq!(info2.actor(), info.actor());
    a2.read_remote().unwrap();
    assert_eq!(observed(&a2), vec![1]);
}

#[test]
fn open_without_create_needs_local_meta() {
    let remote = Rc::new(RefCell::new(Remote::default()));
    let local = Rc::new(RefCell::new(None));
    assert!(open_replica(local, remote, false).is_err());
}

#[test]
fn two_replicas_converge() {
    let remote = Rc::new(RefCell::new(Remote::default()));
    let local_a = Rc::new(RefCell::new(None));
    let local_b = Rc::new(RefCell::new(None));

    let (mut a, info_a) = open_replica(local_a, remote.clone(), true).unwrap();
    let (mut b, info_b) = open_replica(local_b, remote.clone(), true).unwrap();

    write_value(&mut a, &info_a, 1);
    write_value(&mut b, &info_b, 2);

    a.read_remote().unwrap();
    b.read_remote().unwrap();

    let vals_a = observed(&a);
    let vals_b = observed(&b);
    assert!(vals_a.contains(&1) && vals_a.contains(&2), "a saw {:?}", vals_a);
    assert!(vals_b.contains(&1) && vals_b.contains(&2), "b saw {:?}", vals_b);
}

#[test]
fn op_log_densifies() {
    let remote = Rc::new(RefCell::new(Remote::default()));
    let local_a = Rc::new(RefCell::new(None));

    let (mut a, info_a) = open_replica(local_a, remote.clone(), true).unwrap();
    write_value(&mut a, &info_a, 1);
    write_value(&mut a, &info_a, 2);
    write_value(&mut a, &info_a, 3);

    {
        let r = remote.borrow();
        let actor = info_a.actor();
        assert!(r.ops.contains_key(&(actor, 0)));
        assert!(r.ops.contains_key(&(actor, 1)));
        assert!(r.ops.contains_key(&(actor, 2)));
        assert_eq!(r.ops.len(), 3);
    }

    let local_b = Rc::new(RefCell::new(None));
    let (mut b, _info_b) = open_replica(local_b, remote.clone(), true).unwrap();
    b.read_remote().unwrap();
    assert_eq!(observed(&b), vec![3]);
}

#[test]
fn compaction_collapses_ops_into_one_state() {
    let remote = Rc::new(RefCell::new(Remote::default()));
    let local_a = Rc::new(RefCell::new(None));

    let (mut a, info_a) = open_replica(local_a, remote.clone(), true).unwrap();
    write_value(&mut a, &info_a, 1);
    write_value(&mut a, &info_a, 2);
    write_value(&mut a, &info_a, 3);

    a.compact().unwrap();

    {
        let r = remote.borrow();
        assert_eq!(r.ops.len(), 0, "ops were not removed");
        assert_eq!(r.states.len(), 1, "expected exactly one snapshot");
    }

    let local_b = Rc::new(RefCell::new(None));
    let (mut b, _info_b) = open_replica(local_b, remote.clone(), true).unwrap();
    b.read_remote().unwrap();
    assert_eq!(observed(&b), vec![3]);
}

#[test]
fn unsupported_state_version_is_rejected() {
    let remote = Rc::new(RefCell::new(Remote::default()));
    let local_a = Rc::new(RefCell::new(None));

    let (mut a, info_a) = open_replica(local_a, remote.clone(), true).unwrap();
    write_value(&mut a, &info_a, 1);
    a.read_remote().unwrap();

    // inject a state blob whose outer version is unsupported
    {
        let bogus = VersionBytes::new(0x0bad_0bad, vec![1, 2, 3]);
        let name = content_name(&bogus);
        remote.borrow_mut().states.insert(name, bogus.serialize());
    }

    match a.read_remote() {
        Err(Error::VersionMismatch { got, .. }) => assert_eq!(got, 0x0bad_0bad),
        other => panic!("expected a version mismatch, got {:?}", other.map(|_| ())),
    }
    // the replica state is unchanged
    assert_eq!(observed(&a), vec![1]);
}

#[test]
fn non_contiguous_ops_stop_at_the_gap() {
    let remote = Rc::new(RefCell::new(Remote::default()));
    let local_a = Rc::new(RefCell::new(None));

    let (mut a, info_a) = open_replica(local_a, remote.clone(), true).unwrap();
    write_value(&mut a, &info_a, 1);
    write_value(&mut a, &info_a, 2);
    write_value(&mut a, &info_a, 3);

    // remove the middle op, leaving versions 0 and 2
    let actor = info_a.actor();
    remote.borrow_mut().ops.remove(&(actor, 1));

    let local_b = Rc::new(RefCell::new(None));
    let (mut b, _info_b) = open_replica(local_b, remote.clone(), true).unwrap();
    b.read_remote().unwrap();
    // only the run up to the gap is folded in
    assert_eq!(observed(&b), vec![1]);
    // the blob after the gap stays on the remote, unread
    assert!(remote.borrow().ops.contains_key(&(actor, 2)));
}

#[test]
fn duplicate_op_slot_is_refused() {
    let remote = Rc::new(RefCell::new(Remote::default()));
    let local_a = Rc::new(RefCell::new(None));

    let (mut a, info_a) = open_replica(local_a, remote.clone(), true).unwrap();
    write_value(&mut a, &info_a, 1);

    // someone already wrote this replica's next op slot
    remote
        .borrow_mut()
        .ops
        .insert((info_a.actor(), 1), vec![0u8; 20]);

    let actor = info_a.actor();
    let op: MVRegOp<u64> = a.with_state(|s: &MVReg<u64>| {
        let read = s.read();
        let ctx = read.derive_add_ctx(actor);
        s.write(2, ctx)
    });
    assert!(matches!(a.apply_ops(vec![op]), Err(Error::Integrity)));
    // nothing was folded in
    assert_eq!(observed(&a), vec![1]);
}
