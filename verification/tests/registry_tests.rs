use casset::assets::{Asset, AssetUniverse};
use casset::errors::CassetError;
use casset::events::AssetEvent;
use casset::resolvers::{AssetResolver, EmbeddedResolver};
use casset::Casset;

#[derive(Clone, Debug, PartialEq)]
struct Config {
    text: String,
}

#[derive(Clone, Debug, PartialEq)]
struct Sprite {
    bytes: Vec<u8>,
}

#[derive(Clone, Debug, PartialEq)]
struct Texture {
    width: u8,
}

#[derive(Clone, Debug, PartialEq)]
struct NeedsMeta {
    level: u8,
}

#[derive(Clone, Debug, PartialEq)]
enum GameAsset {
    Cfg(Config),
    Spr(Sprite),
    Tex(Texture),
    Nm(NeedsMeta),
}

#[derive(Clone, Debug, PartialEq)]
enum GameMeta {
    Unit,
    Byte(u8),
}

impl AssetUniverse for GameAsset {
    type Meta = GameMeta;

    fn tag(&self) -> u64 {
        match self {
            GameAsset::Cfg(_) => 1,
            GameAsset::Spr(_) => 2,
            GameAsset::Tex(_) => 3,
            GameAsset::Nm(_) => 4,
        }
    }

    fn reload<S: AssetResolver>(
        &self,
        path: &str,
        source: &mut S,
        metadata: &Option<GameMeta>,
    ) -> Result<Self, CassetError> {
        match self {
            GameAsset::Cfg(_) => {
                <Config as Asset<GameAsset>>::load(path, source, Some(())).map(GameAsset::Cfg)
            }
            GameAsset::Spr(_) => {
                <Sprite as Asset<GameAsset>>::load(path, source, Some(())).map(GameAsset::Spr)
            }
            GameAsset::Tex(_) => {
                <Texture as Asset<GameAsset>>::load(path, source, Some(())).map(GameAsset::Tex)
            }
            GameAsset::Nm(_) => {
                let m = match metadata {
                    Some(GameMeta::Byte(b)) => Some(*b),
                    Some(GameMeta::Unit) => return Err(CassetError::IncorrectMetadata),
                    None => None,
                };
                <NeedsMeta as Asset<GameAsset>>::load(path, source, m).map(GameAsset::Nm)
            }
        }
    }
}

impl Asset<GameAsset> for Config {
    fn spec_erase_meta(_m: ()) -> GameMeta {
        GameMeta::Unit
    }

    fn type_tag() -> u64 {
        1
    }

    fn spec_erase(self) -> GameAsset {
        GameAsset::Cfg(self)
    }

    fn spec_restore(u: GameAsset) -> Option<Self> {
        match u {
            GameAsset::Cfg(v) => Some(v),
            _ => None,
        }
    }

    fn lemma_restore_erase(_a: Self) {}

    fn lemma_restore_tag(_u: GameAsset) {}

    type Metadata = ();

    fn load<S: AssetResolver>(
        path: &str,
        source: &mut S,
        _metadata: Option<()>,
    ) -> Result<Self, CassetError> {
        let bytes = source.resolve(path)?;
        let _aux = source.resolve("shared.inc")?;
        Ok(Config {
            text: String::from_utf8(bytes).unwrap_or_default(),
        })
    }

    fn erase(self) -> GameAsset {
        GameAsset::Cfg(self)
    }

    fn restore(u: &GameAsset) -> Option<Self> {
        match u {
            GameAsset::Cfg(c) => Some(c.clone()),
            _ => None,
        }
    }

    fn erase_meta(_m: &()) -> GameMeta {
        GameMeta::Unit
    }
}

impl Asset<GameAsset> for Sprite {
    fn spec_erase_meta(_m: ()) -> GameMeta {
        GameMeta::Unit
    }

    fn type_tag() -> u64 {
        2
    }

    fn spec_erase(self) -> GameAsset {
        GameAsset::Spr(self)
    }

    fn spec_restore(u: GameAsset) -> Option<Self> {
        match u {
            GameAsset::Spr(v) => Some(v),
            _ => None,
        }
    }

    fn lemma_restore_erase(_a: Self) {}

    fn lemma_restore_tag(_u: GameAsset) {}

    type Metadata = ();

    fn load<S: AssetResolver>(
        path: &str,
        source: &mut S,
        _metadata: Option<()>,
    ) -> Result<Self, CassetError> {
        let bytes = source.resolve(path)?;
        Ok(Sprite { bytes })
    }

    fn erase(self) -> GameAsset {
        GameAsset::Spr(self)
    }

    fn restore(u: &GameAsset) -> Option<Self> {
        match u {
            GameAsset::Spr(s) => Some(s.clone()),
            _ => None,
        }
    }

    fn erase_meta(_m: &()) -> GameMeta {
        GameMeta::Unit
    }
}

impl Asset<GameAsset> for Texture {
    fn spec_erase_meta(_m: ()) -> GameMeta {
        GameMeta::Unit
    }

    fn type_tag() -> u64 {
        3
    }

    fn spec_erase(self) -> GameAsset {
        GameAsset::Tex(self)
    }

    fn spec_restore(u: GameAsset) -> Option<Self> {
        match u {
            GameAsset::Tex(v) => Some(v),
            _ => None,
        }
    }

    fn lemma_restore_erase(_a: Self) {}

    fn lemma_restore_tag(_u: GameAsset) {}

    type Metadata = ();

    fn load<S: AssetResolver>(
        path: &str,
        source: &mut S,
        _metadata: Option<()>,
    ) -> Result<Self, CassetError> {
        let bytes = source.resolve(path)?;
        Ok(Texture {
            width: bytes.len() as u8,
        })
    }

    fn erase(self) -> GameAsset {
        GameAsset::Tex(self)
    }

    fn restore(u: &GameAsset) -> Option<Self> {
        match u {
            GameAsset::Tex(t) => Some(t.clone()),
            _ => None,
        }
    }

    fn erase_meta(_m: &()) -> GameMeta {
        GameMeta::Unit
    }
}

impl Asset<GameAsset> for NeedsMeta {
    fn spec_erase_meta(m: u8) -> GameMeta {
        GameMeta::Byte(m)
    }

    fn type_tag() -> u64 {
        4
    }

    fn spec_erase(self) -> GameAsset {
        GameAsset::Nm(self)
    }

    fn spec_restore(u: GameAsset) -> Option<Self> {
        match u {
            GameAsset::Nm(v) => Some(v),
            _ => None,
        }
    }

    fn lemma_restore_erase(_a: Self) {}

    fn lemma_restore_tag(_u: GameAsset) {}

    type Metadata = u8;

    fn load<S: AssetResolver>(
        path: &str,
        source: &mut S,
        metadata: Option<u8>,
    ) -> Result<Self, CassetError> {
        let level = match metadata {
            Some(l) => l,
            None => return Err(CassetError::MetadataRequired),
        };
        let _bytes = source.resolve(path)?;
        Ok(NeedsMeta { level })
    }

    fn erase(self) -> GameAsset {
        GameAsset::Nm(self)
    }

    fn restore(u: &GameAsset) -> Option<Self> {
        match u {
            GameAsset::Nm(n) => Some(n.clone()),
            _ => None,
        }
    }

    fn erase_meta(m: &u8) -> GameMeta {
        GameMeta::Byte(*m)
    }
}

struct CountingResolver {
    inner: EmbeddedResolver,
    count: usize,
}

impl AssetResolver for CountingResolver {
    fn resolve(&mut self, path: &str) -> Result<Vec<u8>, CassetError> {
        self.count += 1;
        self.inner.resolve(path)
    }

    fn hot_swap_path(&self) -> Option<String> {
        None
    }
}

struct WatchedResolver {
    inner: EmbeddedResolver,
    base: String,
}

impl AssetResolver for WatchedResolver {
    fn resolve(&mut self, path: &str) -> Result<Vec<u8>, CassetError> {
        self.inner.resolve(path)
    }

    fn hot_swap_path(&self) -> Option<String> {
        Some(self.base.clone())
    }
}

/// Hands back fresh bytes on every resolution: byte 0 first, then 1, ...
struct GenResolver {
    n: u8,
}

impl AssetResolver for GenResolver {
    fn resolve(&mut self, _path: &str) -> Result<Vec<u8>, CassetError> {
        let b = vec![self.n];
        self.n += 1;
        Ok(b)
    }

    fn hot_swap_path(&self) -> Option<String> {
        Some("root".to_string())
    }
}

fn table() -> EmbeddedResolver {
    let mut e = EmbeddedResolver::new();
    e.insert("a.cfg", b"hello".to_vec());
    e.insert("shared.inc", b"aux".to_vec());
    e.insert("x.bin", b"abc".to_vec());
    e
}

#[test]
fn load_then_get_returns_same_content() {
    let mut c: Casset<EmbeddedResolver, GameAsset> = Casset::new(table(), false).unwrap();
    let h = c.load::<Config>("a.cfg", None).unwrap();
    assert_eq!(h.value().text, "hello");
    let g = c.get::<Config>("a.cfg").unwrap();
    assert_eq!(g.value().text, "hello");
    assert_eq!(g.value(), h.value());
}

#[test]
fn second_load_is_a_pure_cache_hit() {
    let resolver = CountingResolver {
        inner: table(),
        count: 0,
    };
    let mut c: Casset<CountingResolver, GameAsset> = Casset::new(resolver, false).unwrap();
    let h1 = c.load::<Config>("a.cfg", None).unwrap();
    assert_eq!(c.resolver().count, 2);
    let h2 = c.load::<Config>("a.cfg", None).unwrap();
    assert_eq!(c.resolver().count, 2);
    assert_eq!(h1.value(), h2.value());
}

#[test]
fn remove_then_get_none_then_fresh_load() {
    let resolver = CountingResolver {
        inner: table(),
        count: 0,
    };
    let mut c: Casset<CountingResolver, GameAsset> = Casset::new(resolver, false).unwrap();
    c.load::<Config>("a.cfg", None).unwrap();
    assert_eq!(c.resolver().count, 2);
    let evicted = c.remove::<Config>("a.cfg");
    assert!(evicted.is_some());
    assert_eq!(evicted.unwrap().value().text, "hello");
    assert!(c.get::<Config>("a.cfg").is_none());
    c.load::<Config>("a.cfg", None).unwrap();
    assert_eq!(c.resolver().count, 4);
}

#[test]
fn remove_of_uncached_path_is_none_and_silent() {
    let mut c: Casset<EmbeddedResolver, GameAsset> = Casset::new(table(), false).unwrap();
    assert!(c.remove::<Config>("a.cfg").is_none());
    assert!(c.drain_events().is_empty());
}

#[test]
fn reload_scenario_shared_dependency() {
    let resolver = WatchedResolver {
        inner: table(),
        base: "res".to_string(),
    };
    let mut c: Casset<WatchedResolver, GameAsset> = Casset::new(resolver, true).unwrap();
    c.load::<Config>("a.cfg", None).unwrap();
    assert_eq!(
        c.drain_events(),
        vec![AssetEvent::Loaded(vec!["a.cfg".to_string()])]
    );
    let deps = c.dependencies.get_dependents("shared.inc").unwrap();
    assert_eq!(deps, vec!["a.cfg".to_string()]);
    c.handle_change("res/shared.inc").unwrap();
    assert_eq!(
        c.drain_events(),
        vec![AssetEvent::Reloaded(vec!["a.cfg".to_string()])]
    );
}

#[test]
fn reload_normalizes_backslash_separators() {
    let resolver = WatchedResolver {
        inner: table(),
        base: "res".to_string(),
    };
    let mut c: Casset<WatchedResolver, GameAsset> = Casset::new(resolver, true).unwrap();
    c.load::<Config>("a.cfg", None).unwrap();
    c.drain_events();
    c.handle_change("res\\shared.inc").unwrap();
    assert_eq!(
        c.drain_events(),
        vec![AssetEvent::Reloaded(vec!["a.cfg".to_string()])]
    );
}

#[test]
fn notification_for_unregistered_path_is_ignored() {
    let resolver = WatchedResolver {
        inner: table(),
        base: "res".to_string(),
    };
    let mut c: Casset<WatchedResolver, GameAsset> = Casset::new(resolver, true).unwrap();
    c.load::<Config>("a.cfg", None).unwrap();
    c.drain_events();
    assert!(c.handle_change("res/unknown.bin").is_ok());
    assert!(c.drain_events().is_empty());
}

#[test]
fn notification_outside_base_is_a_reload_error() {
    let resolver = WatchedResolver {
        inner: table(),
        base: "res".to_string(),
    };
    let mut c: Casset<WatchedResolver, GameAsset> = Casset::new(resolver, true).unwrap();
    assert!(matches!(
        c.handle_change("elsewhere/shared.inc"),
        Err(CassetError::ReloadError(_))
    ));
}

#[test]
fn without_hot_reload_notifications_fail() {
    let mut c: Casset<EmbeddedResolver, GameAsset> = Casset::new(table(), true).unwrap();
    assert!(matches!(
        c.handle_change("res/a.cfg"),
        Err(CassetError::ReloadError(_))
    ));
}

#[test]
fn get_with_wrong_type_is_none() {
    let mut c: Casset<EmbeddedResolver, GameAsset> = Casset::new(table(), false).unwrap();
    c.load::<Sprite>("x.bin", None).unwrap();
    assert!(c.get::<Texture>("x.bin").is_none());
    assert!(c.get::<Sprite>("x.bin").is_some());
}

#[test]
fn load_with_wrong_type_is_a_downcast_failure() {
    let mut c: Casset<EmbeddedResolver, GameAsset> = Casset::new(table(), false).unwrap();
    c.load::<Sprite>("x.bin", None).unwrap();
    assert!(matches!(
        c.load::<Texture>("x.bin", None),
        Err(CassetError::DowncastFailure)
    ));
}

#[test]
fn missing_path_fails_with_not_found() {
    let mut c: Casset<EmbeddedResolver, GameAsset> = Casset::new(table(), false).unwrap();
    assert!(matches!(
        c.load::<Sprite>("missing.bin", None),
        Err(CassetError::NotFound)
    ));
    assert!(c.drain_events().is_empty());
}

#[test]
fn metadata_contract_errors_surface() {
    let mut c: Casset<EmbeddedResolver, GameAsset> = Casset::new(table(), false).unwrap();
    assert!(matches!(
        c.load::<NeedsMeta>("x.bin", None),
        Err(CassetError::MetadataRequired)
    ));
    let h = c.load::<NeedsMeta>("x.bin", Some(7)).unwrap();
    assert_eq!(h.value().level, 7);
}

#[test]
fn metadata_is_carried_across_reloads() {
    let resolver = WatchedResolver {
        inner: table(),
        base: "res".to_string(),
    };
    let mut c: Casset<WatchedResolver, GameAsset> = Casset::new(resolver, true).unwrap();
    let h = c.load::<NeedsMeta>("x.bin", Some(9)).unwrap();
    assert_eq!(h.value().level, 9);
    c.drain_events();
    c.handle_change("res/x.bin").unwrap();
    assert_eq!(
        c.drain_events(),
        vec![AssetEvent::Reloaded(vec!["x.bin".to_string()])]
    );
    assert_eq!(c.get::<NeedsMeta>("x.bin").unwrap().value().level, 9);
}

#[test]
fn handle_outlives_reload_of_its_path() {
    let mut c: Casset<GenResolver, GameAsset> = Casset::new(GenResolver { n: 0 }, true).unwrap();
    let h1 = c.load::<Sprite>("s", None).unwrap();
    assert_eq!(h1.value().bytes, vec![0u8]);
    c.drain_events();
    c.handle_change("root/s").unwrap();
    assert_eq!(
        c.drain_events(),
        vec![AssetEvent::Reloaded(vec!["s".to_string()])]
    );
    let h2 = c.get::<Sprite>("s").unwrap();
    assert_eq!(h2.value().bytes, vec![1u8]);
    assert_eq!(h1.value().bytes, vec![0u8]);
}

#[test]
fn handles_are_clonable_and_share_content() {
    let mut c: Casset<EmbeddedResolver, GameAsset> = Casset::new(table(), false).unwrap();
    let h = c.load::<Config>("a.cfg", None).unwrap();
    let h2 = h.clone();
    assert_eq!(h.value(), h2.value());
}

#[test]
fn events_come_out_in_emission_order() {
    let mut c: Casset<EmbeddedResolver, GameAsset> = Casset::new(table(), false).unwrap();
    c.load::<Config>("a.cfg", None).unwrap();
    c.load::<Sprite>("x.bin", None).unwrap();
    c.remove::<Sprite>("x.bin");
    assert_eq!(
        c.drain_events(),
        vec![
            AssetEvent::Loaded(vec!["a.cfg".to_string()]),
            AssetEvent::Loaded(vec!["x.bin".to_string()]),
            AssetEvent::Removed(vec!["x.bin".to_string()]),
        ]
    );
    assert!(c.drain_events().is_empty());
}

#[test]
fn remove_keeps_the_dependency_graph() {
    let mut c: Casset<EmbeddedResolver, GameAsset> = Casset::new(table(), false).unwrap();
    c.load::<Config>("a.cfg", None).unwrap();
    c.remove::<Config>("a.cfg");
    assert!(c.dependencies.is_registered("a.cfg"));
    assert_eq!(
        c.dependencies.get_dependents("shared.inc").unwrap(),
        vec!["a.cfg".to_string()]
    );
}
