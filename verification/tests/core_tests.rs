use engine_core::json::{JsonArray, JsonError, JsonObject, JsonOutOfRangeError, JsonValue};
use engine_core::types::{
    address_to_key, bytes_to_hex, keccak, log_to_bytes, near_account_to_evm_address,
    storage_to_key, u256_to_arr, BeginBlockArgs, BeginChainArgs, FunctionCallArgs,
    GetStorageAtArgs, KeyPrefix, ViewCallArgs, U256,
};

#[test]
fn test_hex() {
    assert_eq!(
        bytes_to_hex(&[0u8, 1u8, 255u8, 16u8]),
        "0001ff10".to_string()
    );
}

#[test]
fn hex_round_trip() {
    let input: Vec<u8> = vec![0, 1, 2, 3, 0x7f, 0x80, 0xde, 0xad, 0xbe, 0xef, 0xff];
    let hex = bytes_to_hex(&input);
    assert_eq!(hex.len(), 2 * input.len());
    let mut decoded = Vec::new();
    let chars: Vec<char> = hex.chars().collect();
    for pair in chars.chunks(2) {
        let hi = pair[0].to_digit(16).unwrap() as u8;
        let lo = pair[1].to_digit(16).unwrap() as u8;
        decoded.push(hi * 16 + lo);
    }
    assert_eq!(decoded, input);
    assert_eq!(bytes_to_hex(&[]), String::new());
}

#[test]
fn key_partitioning() {
    let a = [0xabu8; 20];
    let prefixes = [
        KeyPrefix::Config,
        KeyPrefix::Nonce,
        KeyPrefix::Balance,
        KeyPrefix::Code,
        KeyPrefix::Storage,
    ];
    for (i, p1) in prefixes.iter().enumerate() {
        for (j, p2) in prefixes.iter().enumerate() {
            let k1 = address_to_key(*p1, &a);
            let k2 = address_to_key(*p2, &a);
            assert_eq!(i == j, k1 == k2);
        }
    }
    let key1 = address_to_key(KeyPrefix::Nonce, &a);
    assert_eq!(key1[0], 0x01);
    assert_eq!(&key1[1..], &a[..]);

    let slot = [0x5au8; 32];
    let sk = storage_to_key(&a, &slot);
    assert_eq!(sk.len(), 53);
    assert_eq!(&sk[..21], &address_to_key(KeyPrefix::Storage, &a)[..]);
    assert_eq!(&sk[21..], &slot[..]);
}

fn clone_value(v: &JsonValue) -> JsonValue {
    match v {
        JsonValue::Null => JsonValue::Null,
        JsonValue::Float(s) => JsonValue::from_float_text(s.clone()),
        JsonValue::I64(n) => JsonValue::from(*n),
        JsonValue::U64(n) => JsonValue::from(*n),
        JsonValue::Bool(b) => JsonValue::from(*b),
        JsonValue::Text(s) => JsonValue::from(s.clone()),
        JsonValue::Array(items) => {
            let mut a = JsonArray::new();
            for item in items {
                a.push(clone_value(item));
            }
            JsonValue::from(a)
        }
        JsonValue::Object(es) => {
            let mut o = JsonObject::new();
            for (k, v) in es {
                o.insert(k.clone(), clone_value(v));
            }
            JsonValue::from(o)
        }
    }
}

fn obj(entries: &[(&str, JsonValue)]) -> JsonValue {
    let mut o = JsonObject::new();
    for (k, v) in entries {
        o.insert(k.to_string(), clone_value(v));
    }
    JsonValue::from(o)
}

#[test]
fn u128_extraction() {
    let max = "340282366920938463463374607431768211455";
    let v = obj(&[("a", JsonValue::from(max.to_string()))]);
    assert_eq!(v.u128("a"), Ok(u128::MAX));

    let over = "340282366920938463463374607431768211456";
    let v = obj(&[("a", JsonValue::from(over.to_string()))]);
    assert_eq!(v.u128("a"), Err(JsonError::InvalidU128));

    let v = obj(&[("a", JsonValue::from("-5".to_string()))]);
    assert_eq!(
        v.u128("a"),
        Err(JsonError::OutOfRange(JsonOutOfRangeError::OutOfRangeU128))
    );

    let v = obj(&[("a", JsonValue::from(7u64))]);
    assert_eq!(v.u128("a"), Err(JsonError::ExpectedStringGotNumber));
    let v = obj(&[("a", JsonValue::from(-7i64))]);
    assert_eq!(v.u128("a"), Err(JsonError::ExpectedStringGotNumber));
    let v = obj(&[("a", JsonValue::from_float_text("1.5".to_string()))]);
    assert_eq!(v.u128("a"), Err(JsonError::ExpectedStringGotNumber));

    let v = obj(&[("a", JsonValue::from("12x".to_string()))]);
    assert_eq!(v.u128("a"), Err(JsonError::InvalidU128));
    let v = obj(&[("a", JsonValue::from("".to_string()))]);
    assert_eq!(v.u128("a"), Err(JsonError::InvalidU128));
    let v = obj(&[("a", JsonValue::from("123".to_string()))]);
    assert_eq!(v.u128("a"), Ok(123));
    let v = obj(&[("a", JsonValue::from("+123".to_string()))]);
    assert_eq!(v.u128("a"), Ok(123));
    let v = obj(&[("b", JsonValue::from("1".to_string()))]);
    assert_eq!(v.u128("a"), Err(JsonError::MissingValue));
}

#[test]
fn u8_extraction() {
    assert_eq!(JsonValue::parse_u8(&JsonValue::from(255u64)), Ok(255u8));
    assert_eq!(JsonValue::parse_u8(&JsonValue::from(0u64)), Ok(0u8));
    assert_eq!(
        JsonValue::parse_u8(&JsonValue::from(256u64)),
        Err(JsonError::OutOfRange(JsonOutOfRangeError::OutOfRangeU8))
    );
    assert_eq!(
        JsonValue::parse_u8(&JsonValue::from(true)),
        Err(JsonError::InvalidU8)
    );
}

#[test]
fn accessor_on_wrong_shape() {
    let non_mappings = [
        JsonValue::Null,
        JsonValue::from(1u64),
        JsonValue::from(-1i64),
        JsonValue::from(true),
        JsonValue::from("x".to_string()),
        JsonValue::from(JsonArray::new()),
    ];
    for v in &non_mappings {
        assert_eq!(v.string("k"), Err(JsonError::NotJsonType));
        assert_eq!(v.u64("k"), Err(JsonError::NotJsonType));
        assert_eq!(v.u128("k"), Err(JsonError::NotJsonType));
        assert_eq!(v.bool("k"), Err(JsonError::NotJsonType));
    }
}

#[test]
fn typed_accessors() {
    let v = obj(&[
        ("s", JsonValue::from("hello".to_string())),
        ("n", JsonValue::from(42u64)),
        ("b", JsonValue::from(true)),
    ]);
    assert_eq!(v.string("s"), Ok("hello".to_string()));
    assert_eq!(v.u64("n"), Ok(42));
    assert_eq!(v.bool("b"), Ok(true));
    assert_eq!(v.string("n"), Err(JsonError::InvalidString));
    assert_eq!(v.u64("s"), Err(JsonError::InvalidU64));
    assert_eq!(v.bool("s"), Err(JsonError::InvalidBool));
    assert_eq!(v.string("missing"), Err(JsonError::MissingValue));
    assert_eq!(v.u64("missing"), Err(JsonError::MissingValue));
    assert_eq!(v.bool("missing"), Err(JsonError::MissingValue));
}

#[test]
fn mapping_equality_and_ordering() {
    let a = obj(&[
        ("zeta", JsonValue::from(1u64)),
        ("alpha", JsonValue::from(2u64)),
        ("mid", JsonValue::from("v".to_string())),
    ]);
    let b = obj(&[
        ("mid", JsonValue::from("v".to_string())),
        ("alpha", JsonValue::from(2u64)),
        ("zeta", JsonValue::from(1u64)),
    ]);
    assert_eq!(a, b);
    assert_eq!(a.render(), b.render());
    assert_eq!(
        a.render(),
        "{\"alpha\": 2, \"mid\": \"v\", \"zeta\": 1}".to_string()
    );

    let replaced = obj(&[
        ("k", JsonValue::from(1u64)),
        ("k", JsonValue::from(2u64)),
    ]);
    assert_eq!(replaced.u64("k"), Ok(2));
}

#[test]
fn rendering() {
    assert_eq!(JsonValue::Null.render(), "null".to_string());
    assert_eq!(JsonValue::from(true).render(), "true".to_string());
    assert_eq!(JsonValue::from(false).render(), "false".to_string());
    assert_eq!(JsonValue::from(0u64).render(), "0".to_string());
    assert_eq!(JsonValue::from(1234567890u64).render(), "1234567890".to_string());
    assert_eq!(JsonValue::from(-42i64).render(), "-42".to_string());
    assert_eq!(
        JsonValue::from(i64::MIN).render(),
        "-9223372036854775808".to_string()
    );
    assert_eq!(
        JsonValue::from("hi".to_string()).render(),
        "\"hi\"".to_string()
    );
    assert_eq!(
        JsonValue::from_float_text("3.5".to_string()).render(),
        "3.5".to_string()
    );
    let mut arr = JsonArray::new();
    arr.push(JsonValue::from(1u64));
    arr.push(JsonValue::from(2u64));
    assert_eq!(JsonValue::from(arr).render(), "[1, 2]".to_string());
    assert_eq!(JsonValue::from(JsonArray::new()).render(), "[]".to_string());
    assert_eq!(JsonValue::from(JsonObject::new()).render(), "{}".to_string());
}

#[test]
fn error_diagnostics() {
    assert_eq!(JsonError::NotJsonType.msg(), "ERR_NOT_A_JSON_TYPE");
    assert_eq!(JsonError::MissingValue.msg(), "ERR_JSON_MISSING_VALUE");
    assert_eq!(JsonError::InvalidU8.msg(), "ERR_FAILED_PARSE_U8");
    assert_eq!(JsonError::InvalidU64.msg(), "ERR_FAILED_PARSE_U64");
    assert_eq!(JsonError::InvalidU128.msg(), "ERR_FAILED_PARSE_U128");
    assert_eq!(JsonError::InvalidBool.msg(), "ERR_FAILED_PARSE_BOOL");
    assert_eq!(JsonError::InvalidString.msg(), "ERR_FAILED_PARSE_STRING");
    assert_eq!(JsonError::InvalidArray.msg(), "ERR_FAILED_PARSE_ARRAY");
    assert_eq!(
        JsonError::ExpectedStringGotNumber.msg(),
        "ERR_EXPECTED_STRING_GOT_NUMBER"
    );
    assert_eq!(
        JsonError::OutOfRange(JsonOutOfRangeError::OutOfRangeU8).msg(),
        "ERR_OUT_OF_RANGE_U8"
    );
    assert_eq!(
        JsonError::OutOfRange(JsonOutOfRangeError::OutOfRangeU128).msg(),
        "ERR_OUT_OF_RANGE_U128"
    );
    assert_eq!(JsonOutOfRangeError::OutOfRangeU8.msg(), "ERR_OUT_OF_RANGE_U8");
    assert_eq!(
        JsonOutOfRangeError::OutOfRangeU128.msg(),
        "ERR_OUT_OF_RANGE_U128"
    );
}

#[test]
fn u256_big_endian_round_trip() {
    let zero = U256::new([0, 0, 0, 0]);
    assert_eq!(u256_to_arr(&zero), [0u8; 32]);

    let one = U256::from_u64(1);
    let mut expect = [0u8; 32];
    expect[31] = 1;
    assert_eq!(u256_to_arr(&one), expect);

    let max = U256::new([u64::MAX, u64::MAX, u64::MAX, u64::MAX]);
    assert_eq!(u256_to_arr(&max), [0xffu8; 32]);

    let value = U256::new([0x0123456789abcdef, 0xfedcba9876543210, 7, 0]);
    let ours = u256_to_arr(&value);
    let reference = primitive_types::U256([0x0123456789abcdef, 0xfedcba9876543210, 7, 0]);
    assert_eq!(ours, reference.to_big_endian());

    let back = primitive_types::U256::from_big_endian(&ours);
    assert_eq!(back.0, value.limbs);
}

#[test]
fn log_serialization() {
    let t1 = [0x11u8; 32];
    let t2 = [0x22u8; 32];
    let topics = vec![t1, t2];
    let data = vec![1u8, 2, 3];
    let bytes = log_to_bytes(&topics, &data).unwrap();
    assert_eq!(bytes.len(), 1 + 64 + 3);
    assert_eq!(bytes[0], 2);
    assert_eq!(&bytes[1..33], &t1[..]);
    assert_eq!(&bytes[33..65], &t2[..]);
    assert_eq!(&bytes[65..], &data[..]);

    let empty = log_to_bytes(&Vec::new(), &Vec::new()).unwrap();
    assert_eq!(empty, vec![0u8]);

    let too_many = vec![[0u8; 32]; 256];
    assert!(log_to_bytes(&too_many, &data).is_none());
    let just_enough = vec![[0u8; 32]; 255];
    let framed = log_to_bytes(&just_enough, &Vec::new()).unwrap();
    assert_eq!(framed[0], 255);
    assert_eq!(framed.len(), 1 + 255 * 32);
}

#[test]
fn keccak_and_address_derivation() {
    let digest = keccak(b"");
    assert_eq!(
        bytes_to_hex(&digest),
        "c5d2460186f7233c927e7db2dcc703c0e500b653ca82273b7bfad8045d85a470".to_string()
    );
    let addr = near_account_to_evm_address(b"");
    assert_eq!(&addr[..], &digest[12..]);
    assert_eq!(
        bytes_to_hex(&addr),
        "dcc703c0e500b653ca82273b7bfad8045d85a470".to_string()
    );

    let hello = keccak(b"hello");
    assert_eq!(
        bytes_to_hex(&hello),
        "1c8aff950685c2ed4bc3174f3472287b56d9517b9c948127319a09a7a36deac8".to_string()
    );
}

#[test]
fn function_call_args_round_trip() {
    let args = FunctionCallArgs {
        contract: [0xaau8; 20],
        input: vec![1, 2, 3, 4, 5],
    };
    let bytes = args.to_bytes();
    assert_eq!(bytes.len(), 20 + 4 + 5);
    assert_eq!(&bytes[..20], &[0xaau8; 20][..]);
    assert_eq!(&bytes[20..24], &[5, 0, 0, 0][..]);
    assert_eq!(&bytes[24..], &[1, 2, 3, 4, 5][..]);
    let back = FunctionCallArgs::try_from_bytes(&bytes).unwrap();
    assert_eq!(back, args);

    assert!(FunctionCallArgs::try_from_bytes(&bytes[..23]).is_none());
    assert!(FunctionCallArgs::try_from_bytes(&bytes[..bytes.len() - 1]).is_none());
    let mut longer = bytes.clone();
    longer.push(0);
    assert!(FunctionCallArgs::try_from_bytes(&longer).is_none());
}

#[test]
fn view_call_args_round_trip() {
    let args = ViewCallArgs {
        sender: [1u8; 20],
        address: [2u8; 20],
        amount: [3u8; 32],
        input: vec![9, 8, 7],
    };
    let bytes = args.to_bytes();
    assert_eq!(bytes.len(), 20 + 20 + 32 + 4 + 3);
    assert_eq!(&bytes[72..76], &[3, 0, 0, 0][..]);
    let back = ViewCallArgs::try_from_bytes(&bytes).unwrap();
    assert_eq!(back, args);
    assert!(ViewCallArgs::try_from_bytes(&bytes[..75]).is_none());
}

#[test]
fn fixed_records_round_trip() {
    let g = GetStorageAtArgs {
        address: [4u8; 20],
        key: [5u8; 32],
    };
    let bytes = g.to_bytes();
    assert_eq!(bytes.len(), 52);
    assert_eq!(GetStorageAtArgs::try_from_bytes(&bytes).unwrap(), g);
    assert!(GetStorageAtArgs::try_from_bytes(&bytes[..51]).is_none());

    let c = BeginChainArgs { chain_id: [6u8; 32] };
    let bytes = c.to_bytes();
    assert_eq!(bytes.len(), 32);
    assert_eq!(BeginChainArgs::try_from_bytes(&bytes).unwrap(), c);
    assert!(BeginChainArgs::try_from_bytes(&[0u8; 31]).is_none());

    let b = BeginBlockArgs {
        hash: [1u8; 32],
        coinbase: [2u8; 32],
        timestamp: [3u8; 32],
        number: [4u8; 32],
        difficulty: [5u8; 32],
        gaslimit: [6u8; 32],
    };
    let bytes = b.to_bytes();
    assert_eq!(bytes.len(), 192);
    assert_eq!(&bytes[32..64], &[2u8; 32][..]);
    assert_eq!(BeginBlockArgs::try_from_bytes(&bytes).unwrap(), b);
    assert!(BeginBlockArgs::try_from_bytes(&bytes[..191]).is_none());
}
