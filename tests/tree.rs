use forrust_fire_tree::ashes::codec::{AshDeserStorage, DecodeError, WireToken};
use forrust_fire_tree::ashes::{Ashes, BranchId};
use forrust_fire_tree::fire::{self, ForestFire};

fn make_convoluted() -> ForestFire<u32> {
    let mut fire = ForestFire::<u32>::new();

    // x(0):
    //     xx(1):
    //         xxx(6)
    //     xy(5)
    // y(2):
    //     yx(3):
    //         yxx(4)
    //
    // inserted in an odd order, so that the tree cannot come out right by
    // accident of ordering
    let x = fire.branch(fire::BranchId::ROOT, 0);
    let xx = fire.branch(x, 1);
    let y = fire.branch(fire::BranchId::ROOT, 2);
    let yx = fire.branch(y, 3);
    let _yxx = fire.branch(yx, 4);
    let _xy = fire.branch(x, 5);
    let _xxx = fire.branch(xx, 6);

    fire
}

fn assert_convoluted(ashes: &Ashes<u32>) {
    let root = ashes.branch(BranchId::ROOT);
    assert_eq!(root.payload(), None);
    {
        let x = ashes.branch(root.child(0));
        assert_eq!(x.payload(), Some(&0));
        {
            let xx = ashes.branch(x.child(0));
            assert_eq!(xx.payload(), Some(&1));
            {
                let xxx = ashes.branch(xx.child(0));
                assert_eq!(xxx.payload(), Some(&6));
                assert_eq!(xxx.n_children(), 0);
            }
            assert_eq!(xx.n_children(), 1);
        }
        {
            let xy = ashes.branch(x.child(1));
            assert_eq!(xy.payload(), Some(&5));
            assert_eq!(xy.n_children(), 0);
        }
        assert_eq!(x.n_children(), 2);
    }
    {
        let y = ashes.branch(root.child(1));
        assert_eq!(y.payload(), Some(&2));
        {
            let yx = ashes.branch(y.child(0));
            assert_eq!(yx.payload(), Some(&3));
            {
                let yxx = ashes.branch(yx.child(0));
                assert_eq!(yxx.payload(), Some(&4));
                assert_eq!(yxx.n_children(), 0);
            }
            assert_eq!(yx.n_children(), 1);
        }
        assert_eq!(y.n_children(), 1);
    }
}

fn key(k: &str) -> WireToken<u32> {
    WireToken::Key(k.to_string())
}

fn leaf(k: &str, v: u32) -> Vec<WireToken<u32>> {
    vec![key(k), WireToken::MapStart, key("v"), WireToken::Payload(v), WireToken::MapEnd]
}

/// Replaces the node identifiers of an encoding by the nodes' payloads.
fn with_payloads(ashes: &Ashes<u32>, tokens: Vec<WireToken<BranchId>>) -> Vec<WireToken<u32>> {
    tokens
        .into_iter()
        .map(|t| match t {
            WireToken::MapStart => WireToken::MapStart,
            WireToken::Key(k) => WireToken::Key(k),
            WireToken::Payload(id) => WireToken::Payload(*ashes.branch(id).payload().unwrap()),
            WireToken::MapEnd => WireToken::MapEnd,
        })
        .collect()
}

/// Writes a token stream as compact JSON text.
fn to_json(tokens: &[WireToken<u32>]) -> String {
    let mut out = String::new();
    let mut first = true;
    for t in tokens {
        match t {
            WireToken::MapStart => {
                out.push('{');
                first = true;
            }
            WireToken::Key(k) => {
                if !first {
                    out.push(',');
                }
                out.push_str(&format!("\"{k}\":"));
                first = false;
            }
            WireToken::Payload(v) => out.push_str(&v.to_string()),
            WireToken::MapEnd => out.push('}'),
        }
    }
    out
}

fn decode(tokens: Vec<WireToken<u32>>) -> Result<Ashes<u32>, DecodeError> {
    let mut storage = AshDeserStorage::<u32>::new();
    storage.deser(tokens)?;
    Ok(std::mem::replace(&mut storage.ashes, Ashes::new()))
}

#[test]
fn empty() {
    let fire = ForestFire::<u32>::new();
    let ashes = fire.burn();
    assert!(ashes.root_children().is_empty());
    assert!(ashes.node_count() == 0)
}

#[test]
fn convoluted() {
    let fire = make_convoluted();
    let ashes = fire.burn();

    println!("{ashes:#?}\n{}", ashes.print_tree_display());
    assert_convoluted(&ashes);
}

#[test]
fn json_de() {
    // {"1": {"v": 0, "0": {"v": 1}},
    //  "0": {"1": {"v": 2}, "v": 3, "0": {"v": 3}, "2": {"v": 4}}}
    let mut tokens = vec![WireToken::MapStart, key("1"), WireToken::MapStart];
    tokens.extend([key("v"), WireToken::Payload(0)]);
    tokens.extend(leaf("0", 1));
    tokens.extend([WireToken::MapEnd, key("0"), WireToken::MapStart]);
    tokens.extend(leaf("1", 2));
    tokens.extend([key("v"), WireToken::Payload(3)]);
    tokens.extend(leaf("0", 3));
    tokens.extend(leaf("2", 4));
    tokens.extend([WireToken::MapEnd, WireToken::MapEnd]);
    let ashes = decode(tokens).unwrap();

    let root = ashes.branch(BranchId::ROOT);
    assert_eq!(root.payload(), None);
    {
        let x = ashes.branch(root.child(0));
        assert_eq!(x.payload(), Some(&3));
        {
            let xx = ashes.branch(x.child(0));
            assert_eq!(xx.payload(), Some(&3));
            assert_eq!(xx.n_children(), 0);
        }
        {
            let xy = ashes.branch(x.child(1));
            assert_eq!(xy.payload(), Some(&2));
            assert_eq!(xy.n_children(), 0);
        }
        {
            let xz = ashes.branch(x.child(2));
            assert_eq!(xz.payload(), Some(&4));
            assert_eq!(xz.n_children(), 0);
        }
        assert_eq!(x.n_children(), 3);
    }
    {
        let y = ashes.branch(root.child(1));
        assert_eq!(y.payload(), Some(&0));
        {
            let yx = ashes.branch(y.child(0));
            assert_eq!(yx.payload(), Some(&1));
            assert_eq!(yx.n_children(), 0);
        }
        assert_eq!(y.n_children(), 1);
    }
}

#[test]
fn json_ser_and_de() {
    let fire = make_convoluted();
    let ashes = fire.burn();
    let value = with_payloads(&ashes, ashes.encode());
    assert_eq!(
        to_json(&value),
        r#"{"0":{"v":0,"0":{"v":1,"0":{"v":6}},"1":{"v":5}},"1":{"v":2,"0":{"v":3,"0":{"v":4}}}}"#,
    );
    let ashes = decode(value).unwrap();
    assert_convoluted(&ashes);
}
