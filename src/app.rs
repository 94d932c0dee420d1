//! Application (tenant) credentials.
use vstd::prelude::*;

verus! {

/// A tenant: identity, credentials and the flags that the core reads.
#[derive(Debug, Clone)]
pub struct App {
    pub id: String,
    pub key: String,
    pub secret: String,
    pub enabled: bool,
    pub enable_user_authentication: bool,
}

impl App {
    pub fn new(id: String, key: String, secret: String) -> (r: App)
        ensures
            r.id@ == id@,
            r.key@ == key@,
            r.secret@ == secret@,
            r.enabled,
            !r.enable_user_authentication,
    {
        App { id, key, secret, enabled: true, enable_user_authentication: false }
    }
}

impl App {
    pub fn duplicate(&self) -> (r: App)
        ensures
            r.id@ == self.id@,
            r.key@ == self.key@,
            r.secret@ == self.secret@,
            r.enabled == self.enabled,
            r.enable_user_authentication == self.enable_user_authentication,
    {
        App {
            id: self.id.clone(),
            key: self.key.clone(),
            secret: self.secret.clone(),
            enabled: self.enabled,
            enable_user_authentication: self.enable_user_authentication,
        }
    }
}

/// Where app credentials are kept.
#[derive(Debug, Clone, Copy, PartialEq, Eq, Structural)]
pub enum AppManagerDriver {
    Memory,
    Mysql,
    Dynamodb,
    PgSql,
}

/// Picks the app store to run.
pub struct AppManagerFactory;

impl AppManagerFactory {
    /// The configured store; a database store that failed to initialise
    /// (`backend_ready == false`) falls back to the in-memory store.
    pub fn create(driver: AppManagerDriver, backend_ready: bool) -> (r: AppManagerDriver)
        ensures
            r == (if driver == AppManagerDriver::Memory || backend_ready { driver } else { AppManagerDriver::Memory }),
    {
        match driver {
            AppManagerDriver::Memory => AppManagerDriver::Memory,
            _ => if backend_ready { driver } else { AppManagerDriver::Memory },
        }
    }
}

pub open spec fn app_ids_unique(v: Seq<App>) -> bool {
    forall|i: int, j: int| 0 <= i < v.len() && 0 <= j < v.len() && i != j ==> (#[trigger] v[i]).id@ != (#[trigger] v[j]).id@
}

/// App credentials held in memory; one app per id.
pub struct MemoryAppManager {
    apps: Vec<App>,
}

impl MemoryAppManager {
    pub closed spec fn entries(&self) -> Seq<App> {
        self.apps@
    }

    pub open spec fn wf(&self) -> bool {
        app_ids_unique(self.entries())
    }

    /// An app with id `id` is stored.
    pub open spec fn has_id(&self, id: Seq<char>) -> bool {
        exists|i: int| 0 <= i < self.entries().len() && (#[trigger] self.entries()[i]).id@ == id
    }

    /// An app with key `key` is stored.
    pub open spec fn has_key(&self, key: Seq<char>) -> bool {
        exists|i: int| 0 <= i < self.entries().len() && (#[trigger] self.entries()[i]).key@ == key
    }

    pub fn new() -> (r: MemoryAppManager)
        ensures
            r.wf(),
            r.entries().len() == 0,
    {
        MemoryAppManager { apps: Vec::new() }
    }

    /// Stores `app`; refused (`false`, no change) if its id is taken.
    pub fn create_app(&mut self, app: App) -> (r: bool)
        requires
            old(self).wf(),
        ensures
            final(self).wf(),
            r == !old(self).has_id(app.id@),
            r ==> final(self).entries() == old(self).entries().push(app),
            !r ==> final(self).entries() == old(self).entries(),
    {
        let mut i: usize = 0;
        while i < self.apps.len()
            invariant
                i <= self.apps@.len(),
                self.apps@ == old(self).apps@,
                app_ids_unique(self.apps@),
                forall|j: int| 0 <= j < i ==> (#[trigger] self.apps@[j]).id@ != app.id@,
            decreases self.apps@.len() - i,
        {
            if self.apps[i].id == app.id {
                assert(self.entries() == self.apps@);
                assert(old(self).entries() == old(self).apps@);
                assert(self.apps@[i as int].id@ == app.id@);
                return false;
            }
            i = i + 1;
        }
        let ghost before = self.apps@;
        self.apps.push(app);
        proof {
            assert(self.entries() == before.push(app));
            assert forall|a: int, b: int| 0 <= a < self.apps@.len() && 0 <= b < self.apps@.len() && a != b
                implies (#[trigger] self.apps@[a]).id@ != (#[trigger] self.apps@[b]).id@ by {
                if a < before.len() && b < before.len() {
                    assert(self.apps@[a] == before[a] && self.apps@[b] == before[b]);
                } else if a < before.len() {
                    assert(self.apps@[a] == before[a]);
                } else {
                    assert(self.apps@[b] == before[b]);
                }
            }
        }
        true
    }

    /// The app with id `id`.
    pub fn find_by_id(&self, id: &str) -> (r: Option<App>)
        ensures
            r is Some == self.has_id(id@),
            r is Some ==> exists|i: int| 0 <= i < self.entries().len() && #[trigger] self.entries()[i].id@ == id@
                && r->Some_0.key@ == self.entries()[i].key@ && r->Some_0.secret@ == self.entries()[i].secret@
                && r->Some_0.id@ == id@,
    {
        let mut i: usize = 0;
        while i < self.apps.len()
            invariant
                i <= self.apps@.len(),
                forall|j: int| 0 <= j < i ==> (#[trigger] self.apps@[j]).id@ != id@,
            decreases self.apps@.len() - i,
        {
            if crate::token::secure_compare(self.apps[i].id.as_str(), id) {
                let a = self.apps[i].duplicate();
                assert(self.entries()[i as int].id@ == id@);
                return Some(a);
            }
            i = i + 1;
        }
        None
    }

    /// The app whose key is `key` (the first, if several share it).
    pub fn find_by_key(&self, key: &str) -> (r: Option<App>)
        ensures
            r is Some == self.has_key(key@),
            r is Some ==> exists|i: int| 0 <= i < self.entries().len() && #[trigger] self.entries()[i].key@ == key@
                && r->Some_0.id@ == self.entries()[i].id@ && r->Some_0.secret@ == self.entries()[i].secret@
                && r->Some_0.key@ == key@,
    {
        let mut i: usize = 0;
        while i < self.apps.len()
            invariant
                i <= self.apps@.len(),
                forall|j: int| 0 <= j < i ==> (#[trigger] self.apps@[j]).key@ != key@,
            decreases self.apps@.len() - i,
        {
            if crate::token::secure_compare(self.apps[i].key.as_str(), key) {
                let a = self.apps[i].duplicate();
                assert(self.entries()[i as int].key@ == key@);
                return Some(a);
            }
            i = i + 1;
        }
        None
    }

    /// The number of stored apps.
    pub fn app_count(&self) -> (r: usize)
        ensures
            r == self.entries().len(),
    {
        self.apps.len()
    }
}

} // verus!
