use rgraph::asset_str;
use rgraph::Chain;
use rgraph::End;
use rgraph::Pop;
use rgraph::Push;

type V = Vec<u32>;

#[test]
fn mix_list_single() {
    let x = ().push(1);
    println!("{:?}", x);
    let y = x.push(1);
    println!("{:?}", y);
}

#[test]
fn mix_list() {
    let x = ().push(1).push(true);
    println!("{:?}", x);
    let y = x.push(3.4);
    println!("{:?}", y);

    let (one, tail) = y.pop();
    assert!(one == 3.4);
    let (two, tail) = tail.pop();
    assert!(two == true);
    let (three, _tail) = tail.pop();
    assert!(three == 1);
}

#[test]
fn unpack() {
    {
        let list = ();
        let _ = list;
    }
    {
        let list = ().push(1);
        let tail = list;
        let (tmp, tail) = tail.pop();
        let x: u32 = tmp;
        let _ = tail;
        assert!(x == 1);
    }
    {
        let list = ().push(1).push(true);
        let tail = list;
        let (tmp, tail) = tail.pop();
        let x: bool = tmp;
        let (tmp, tail) = tail.pop();
        let y: i32 = tmp;
        let _ = tail;
        assert!(x == true);
        assert!(y == 1);
    }
}

#[test]
fn pack() {
    {
        let list = ().push(1);
        let tail = list;
        let (tmp, tail) = tail.pop();
        let x: u32 = tmp;
        let _ = tail;
        assert!(x == 1);
    }
    {
        let list = ().push(3.5).push(true).push(1);
        let tail = list;
        let (tmp, tail) = tail.pop();
        let x: u32 = tmp;
        let (tmp, tail) = tail.pop();
        let y: bool = tmp;
        let (tmp, tail) = tail.pop();
        let z: f32 = tmp;
        let _ = tail;
        assert!(x == 1);
        assert!(y == true);
        assert!(z == 3.5);
    }
}

#[test]
fn define() {
    {
        let list: Chain<i32, End> = Default::default();
        let (tmp, tail) = list.pop();
        let a: i32 = tmp;
        let _ = tail;
        assert!(a == i32::default());
    }
    {
        let list: Chain<i32, Chain<bool, End>> = Default::default();
        let (tmp, tail) = list.pop();
        let a: i32 = tmp;
        let (tmp, tail) = tail.pop();
        let b: bool = tmp;
        let _ = tail;
        assert!(a == i32::default());
        assert!(b == bool::default());
    }
    {
        let list: Chain<i32, Chain<bool, Chain<V, End>>> = Default::default();
        let (tmp, tail) = list.pop();
        let a: i32 = tmp;
        let (tmp, tail) = tail.pop();
        let b: bool = tmp;
        let (tmp, tail) = tail.pop();
        let c: V = tmp;
        let _ = tail;
        assert!(a == i32::default());
        assert!(b == bool::default());
        assert!(c == V::default());
    }
}

#[test]
fn names() {
    assert!(asset_str("one", "two") == "one::two");
    assert!(asset_str("one", "two") == "one::two");
    assert!(asset_str("one", "two") == "one::two");
}
