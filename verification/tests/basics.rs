use std::error::Error;
use std::fmt;
use std::io;

type Bytes = Vec<u8>;

fn divide(a: i32, b: i32) -> Result<i32, &'static str> {
    if b == 0 {
        Err("除数不能为零")
    } else {
        Ok(a / b)
    }
}

fn print(n: &[f64]) {
    for ele in n {
        println!("{}", ele);
    }
}

#[derive(Debug, Clone)]
pub struct JsonError {
    pub message: String,
    pub line: usize,
    pub column: usize,
}

impl fmt::Display for JsonError {
    fn fmt(&self, f: &mut fmt::Formatter<'_>) -> fmt::Result {
        f.write_str(&format!("{}({}, {})", self.message, self.line, self.column))
    }
}

impl Error for JsonError {}

#[test]
fn interger() {
    assert_eq!(10_i8 as u16, 10_u16);
    assert_eq!(2525_u16 as i16, 2525_i16);
    assert_eq!(1000_i16 as u8, 232_u8);
    assert_eq!(65535_u32 as i16, -1_i16);
    assert_eq!(-1_i8 as u8, 255_u8);
    assert_eq!(255_u8 as i8, -1_i8);

    assert_eq!(10_u8.checked_add(20), Some(30));
    assert_eq!(100_u8.checked_add(200), None);
    assert_eq!(500_u16.wrapping_mul(500), 53392);
    assert_eq!(32760_i16.saturating_add(10), 32767);
    assert_eq!((-32767_i16).saturating_sub(10), -32768);
    assert_eq!(255_u8.overflowing_sub(2), (253, false));
    assert_eq!(255_u8.overflowing_add(2), (1, true));
}

#[test]
fn float() {
    assert!((-1. / f32::INFINITY).is_sign_negative());
    assert_eq!(-f32::MIN, f32::MAX);
    assert_eq!(5f32.sqrt() * 5f32.sqrt(), 5.);
}

#[test]
fn boolean() {
    assert_eq!(false as i32, 0);
    assert_eq!(true as i32, 1);
}

#[test]
fn char() {
    assert_eq!("hello".chars().nth(0), Some('h'));
    assert_eq!("hello".chars().nth(1), Some('e'));
    assert_eq!("hello".chars().nth(2), Some('l'));
    assert_eq!("hello".chars().nth(3), Some('l'));

    assert_eq!(230u8 as char, 'æ');
    assert_eq!(std::char::from_u32(230), Some('æ'));
}

#[test]
fn tuples() {
    let text = "I see the eigenvalue in thine eye";
    let (head, tail) = text.split_at(5);
    assert_eq!(head, "I see");
    assert_eq!(tail, " the eigenvalue in thine eye");

    let _unit: () = ();
    let _single_val_tuples: (i32,) = (3,);
}

#[test]
fn box_var() {
    let b: Box<i32> = Box::new(5);
    assert_eq!(*b, 5);
}

#[test]
fn array() {
    let lazy_caterer: [u32; 6] = [1, 2, 4, 7, 11, 16];
    assert_eq!(lazy_caterer[3], 7);

    let mut primes: Vec<i32> = vec![2, 3, 5, 7];
    assert_eq!(primes.iter().product::<i32>(), 210);
    primes.push(11);
    primes.push(13);
    assert_eq!(primes.iter().product::<i32>(), 30030);
    let mut v: Vec<i32> = (0..5).collect();
    assert_eq!(v, vec![0, 1, 2, 3, 4]);
    v.insert(3, 35);
    assert_eq!(v, vec![0, 1, 2, 35, 3, 4]);
    v.remove(1);
    assert_eq!(v, vec![0, 2, 35, 3, 4]);
    assert_eq!(v.pop(), Some(4));
    for i in v {
        println!("{}", i);
    }

    let v: Vec<f64> = vec![0.0, 0.707, 1.0, 0.707];
    let a: [f64; 4] = [0.0, 0.707, 1.0, 0.707];
    let sv: &[f64] = &v;
    let sa: &[f64] = &a;

    print(&v[0..2]);
    print(&a[2..]);
    print(&sv[1..3]);
    print(&sa);
}

#[test]
fn string() {
    let default_win_install_path = r"C:\Program Files\MyProg";
    println!("{}", default_win_install_path);
    println!(
        r###"
        This raw string started with 'r###'.
        Therefore it does not end until we reach a quote mark ('"')
        followed by three hash marks ('###').
    "###
    );
    println!(
        "It was a bright, cold day in April, and \
        there were four of us——\
        more or less."
    );

    let method = b"GET";
    assert_eq!(method, &[b'G', b'E', b'T']);

    let noodles = "noodles".to_string();
    let _oodles = &noodles[1..];

    assert_eq!("🐍".len(), 4);
    assert_eq!("🐍".chars().count(), 1);
}

#[test]
fn alias() {
    let _foo: Bytes = vec![1, 2, 3];
}

#[test]
fn it_works() {
    assert_eq!(2 + 2, 4);
}

#[test]
fn result() {
    let result = divide(4, 2);
    assert!(result.is_ok() && !result.is_err());
    assert_eq!(result.ok(), Some(2));
    assert_eq!(result.err(), None);
    assert_eq!(result.unwrap_or(100), 2);
    assert_eq!(result.unwrap_or_else(|_err| 100), 2);
    assert_eq!(result.unwrap(), 2);
    assert_eq!(result.expect("除法失败"), 2);
}

#[test]
fn print_error() {
    let err: Box<dyn Error> = Box::new(io::Error::new(io::ErrorKind::NotFound, "File not found"));

    println!("error: {}", err);
    println!("error: {:?}", err);
    println!("error: {}", err.to_string());
}

#[test]
fn self_defined_error() {
    let err = JsonError {
        message: "Invalid JSON syntax".to_string(),
        line: 3,
        column: 15,
    };
    assert_eq!(format!("{}", err), "Invalid JSON syntax(3, 15)");
}
