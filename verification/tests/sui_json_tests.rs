use sui_core::base_types::MoveTypeTag;
use sui_core::sui_json::{
    convert_string_to_u128, is_homogenous, resolve_move_function_args, JsonValue, ResolveError,
    SuiJsonError, SuiJsonValue,
};

fn num(n: u64) -> JsonValue {
    JsonValue::Number(n)
}

fn s(text: &str) -> JsonValue {
    JsonValue::Str(text.as_bytes().to_vec())
}

fn arr(items: Vec<JsonValue>) -> JsonValue {
    JsonValue::Array(items)
}

fn valid(v: JsonValue) -> SuiJsonValue {
    SuiJsonValue::new(v).unwrap()
}

fn vector_of(t: MoveTypeTag) -> MoveTypeTag {
    MoveTypeTag::Vector(Box::new(t))
}

#[test]
fn homogeneous_flat_and_nested_arrays_pass() {
    assert!(is_homogenous(&arr(vec![num(1), num(2), num(3)])));
    assert!(is_homogenous(&arr(vec![arr(vec![num(1)]), arr(vec![num(2)])])));
}

#[test]
fn mixed_arrays_fail() {
    assert!(!is_homogenous(&arr(vec![num(1), s("a")])));
    assert!(!is_homogenous(&arr(vec![num(1), arr(vec![num(2)])])));
}

#[test]
fn empty_array_passes_and_object_fails() {
    assert!(is_homogenous(&arr(vec![])));
    assert!(!is_homogenous(&JsonValue::Object));
}

#[test]
fn scalars_always_pass_the_homogeneity_check() {
    assert!(is_homogenous(&JsonValue::Bool(true)));
    assert!(is_homogenous(&num(5)));
    assert!(is_homogenous(&s("x")));
}

#[test]
fn mixed_depths_fail_across_siblings() {
    // The check works level by level: the two number 2s sit at different
    // depths than the 1, so the shallow one clashes with the array.
    assert!(!is_homogenous(&arr(vec![arr(vec![num(1)]), num(2)])));
}

#[test]
fn non_u64_numbers_count_as_numbers_for_homogeneity() {
    assert!(is_homogenous(&arr(vec![num(1), JsonValue::NonU64Number])));
}

#[test]
fn constructor_accepts_scalars_and_homogeneous_arrays() {
    assert!(SuiJsonValue::new(JsonValue::Bool(true)).is_ok());
    assert!(SuiJsonValue::new(s("hello")).is_ok());
    assert!(SuiJsonValue::new(num(123)).is_ok());
    assert!(SuiJsonValue::new(arr(vec![num(1), num(2)])).is_ok());
    assert!(SuiJsonValue::new(arr(vec![])).is_ok());
}

#[test]
fn constructor_rejects_null_object_float_and_mixed_array() {
    assert!(matches!(
        SuiJsonValue::new(JsonValue::Null),
        Err(SuiJsonError::Validation(JsonValue::Null))
    ));
    assert!(SuiJsonValue::new(JsonValue::Object).is_err());
    assert!(SuiJsonValue::new(JsonValue::NonU64Number).is_err());
    assert!(SuiJsonValue::new(arr(vec![num(1), s("a")])).is_err());
}

#[test]
fn to_json_value_round_trips_the_raw_value() {
    let v = valid(arr(vec![num(1), num(2)]));
    match v.to_json_value() {
        JsonValue::Array(items) => {
            assert_eq!(items.len(), 2);
            assert!(matches!(items[0], JsonValue::Number(1)));
            assert!(matches!(items[1], JsonValue::Number(2)));
        }
        _ => panic!("expected an array back"),
    }
}

#[test]
fn encode_bool_and_fixed_width_numbers() {
    assert_eq!(valid(JsonValue::Bool(true)).to_bcs_bytes(&MoveTypeTag::Bool).unwrap(), vec![1]);
    assert_eq!(valid(JsonValue::Bool(false)).to_bcs_bytes(&MoveTypeTag::Bool).unwrap(), vec![0]);
    assert_eq!(valid(num(200)).to_bcs_bytes(&MoveTypeTag::U8).unwrap(), vec![200]);
    assert_eq!(
        valid(num(10)).to_bcs_bytes(&MoveTypeTag::U64).unwrap(),
        10u64.to_le_bytes().to_vec()
    );
    assert_eq!(
        valid(num(7)).to_bcs_bytes(&MoveTypeTag::U128).unwrap(),
        7u128.to_le_bytes().to_vec()
    );
}

#[test]
fn encode_numeric_strings_decimal_and_hex() {
    assert_eq!(
        valid(s("123")).to_bcs_bytes(&MoveTypeTag::U64).unwrap(),
        123u64.to_le_bytes().to_vec()
    );
    assert_eq!(valid(s("0xFF")).to_bcs_bytes(&MoveTypeTag::U8).unwrap(), vec![255]);
    assert_eq!(
        valid(s("340282366920938463463374607431768211455"))
            .to_bcs_bytes(&MoveTypeTag::U128)
            .unwrap(),
        u128::MAX.to_le_bytes().to_vec()
    );
}

#[test]
fn encode_rejects_out_of_range_and_mismatched_shapes() {
    assert!(valid(num(256)).to_bcs_bytes(&MoveTypeTag::U8).is_err());
    assert!(valid(s("256")).to_bcs_bytes(&MoveTypeTag::U8).is_err());
    assert!(valid(num(1)).to_bcs_bytes(&MoveTypeTag::Bool).is_err());
    assert!(valid(JsonValue::Bool(true)).to_bcs_bytes(&MoveTypeTag::U8).is_err());
    assert!(valid(s("pony")).to_bcs_bytes(&MoveTypeTag::U64).is_err());
    let err = valid(num(3)).to_bcs_bytes(&MoveTypeTag::Address).unwrap_err();
    assert!(matches!(err, SuiJsonError::TypeMismatch(JsonValue::Number(3), MoveTypeTag::Address)));
}

#[test]
fn encode_address_pads_short_hex_literals() {
    // "0x2a" denotes address value 0x2a: nineteen zero bytes, then 0x2a.
    let mut expected = vec![0u8; 20];
    expected[19] = 0x2a;
    assert_eq!(valid(s("0x2a")).to_bcs_bytes(&MoveTypeTag::Address).unwrap(), expected);
    // The marker is recognized case-insensitively.
    assert_eq!(valid(s("0X2A")).to_bcs_bytes(&MoveTypeTag::Address).unwrap(), expected);
    // An odd number of digits is padded too.
    let mut expected3 = vec![0u8; 20];
    expected3[18] = 0x02;
    expected3[19] = 0xa2;
    assert_eq!(valid(s("0x2a2")).to_bcs_bytes(&MoveTypeTag::Address).unwrap(), expected3);
}

#[test]
fn encode_address_requires_marker_and_fixed_width() {
    assert!(valid(s("2a")).to_bcs_bytes(&MoveTypeTag::Address).is_err());
    // 41 digits exceed the 20-byte width.
    let too_long = format!("0x{}", "1".repeat(41));
    assert!(valid(s(&too_long)).to_bcs_bytes(&MoveTypeTag::Address).is_err());
    let max_len = format!("0x{}", "1".repeat(40));
    assert_eq!(
        valid(s(&max_len)).to_bcs_bytes(&MoveTypeTag::Address).unwrap(),
        vec![0x11u8; 20]
    );
}

#[test]
fn encode_byte_vector_from_unmarked_string_takes_raw_bytes() {
    // Without the marker, each character of the string is one byte: the
    // ten ASCII bytes of the literal text, behind a one-byte length.
    let mut expected = vec![10u8];
    expected.extend_from_slice(b"68656c6c6f");
    assert_eq!(
        valid(s("68656c6c6f")).to_bcs_bytes(&vector_of(MoveTypeTag::U8)).unwrap(),
        expected
    );
}

#[test]
fn encode_byte_vector_from_marked_string_decodes_hex_pairs() {
    assert_eq!(
        valid(s("0x68656c6c6f")).to_bcs_bytes(&vector_of(MoveTypeTag::U8)).unwrap(),
        vec![5, 0x68, 0x65, 0x6c, 0x6c, 0x6f]
    );
}

#[test]
fn encode_byte_vector_rejects_odd_or_invalid_hex() {
    assert!(valid(s("0x123")).to_bcs_bytes(&vector_of(MoveTypeTag::U8)).is_err());
    assert!(valid(s("0xzz")).to_bcs_bytes(&vector_of(MoveTypeTag::U8)).is_err());
    // A string can only stand for a vector of bytes, not of wider types.
    assert!(valid(s("0x1234")).to_bcs_bytes(&vector_of(MoveTypeTag::U64)).is_err());
}

#[test]
fn encode_array_concatenates_with_length_prefix() {
    assert_eq!(
        valid(arr(vec![num(1), num(2), num(3)])).to_bcs_bytes(&vector_of(MoveTypeTag::U64)).unwrap(),
        {
            let mut expected = vec![3u8];
            expected.extend_from_slice(&1u64.to_le_bytes());
            expected.extend_from_slice(&2u64.to_le_bytes());
            expected.extend_from_slice(&3u64.to_le_bytes());
            expected
        }
    );
}

#[test]
fn encode_nested_arrays() {
    assert_eq!(
        valid(arr(vec![arr(vec![num(1)]), arr(vec![num(2)])]))
            .to_bcs_bytes(&vector_of(vector_of(MoveTypeTag::U8)))
            .unwrap(),
        vec![2, 1, 1, 1, 2]
    );
}

#[test]
fn encode_long_vector_uses_multi_byte_length_prefix() {
    let items: Vec<JsonValue> = (0..128).map(|_| num(7)).collect();
    let encoded = valid(arr(items)).to_bcs_bytes(&vector_of(MoveTypeTag::U8)).unwrap();
    // 128 = 0x80: the canonical variable-length form is 0x80 0x01.
    assert_eq!(encoded[0], 0x80);
    assert_eq!(encoded[1], 0x01);
    assert_eq!(encoded.len(), 130);
    assert!(encoded[2..].iter().all(|&b| b == 7));
}

#[test]
fn encode_rejects_non_u64_number_inside_array() {
    // Such an array passes construction (it is homogeneous), but no
    // numeric type can take the unrepresentable element.
    let v = valid(arr(vec![num(1), JsonValue::NonU64Number]));
    assert!(v.to_bcs_bytes(&vector_of(MoveTypeTag::U64)).is_err());
}

#[test]
fn convert_string_handles_decimal_hex_and_rejects_garbage() {
    assert_eq!(convert_string_to_u128(b"123"), Some(123));
    assert_eq!(convert_string_to_u128(b"+42"), Some(42));
    assert_eq!(convert_string_to_u128(b"0xff"), Some(255));
    assert_eq!(convert_string_to_u128(b" 0XFF "), Some(255));
    assert_eq!(convert_string_to_u128(b"0x0x2a"), Some(42));
    assert_eq!(
        convert_string_to_u128(b"340282366920938463463374607431768211455"),
        Some(u128::MAX)
    );
    assert_eq!(convert_string_to_u128(b"340282366920938463463374607431768211456"), None);
    assert_eq!(convert_string_to_u128(b"0xffffffffffffffffffffffffffffffff"), Some(u128::MAX));
    assert_eq!(convert_string_to_u128(b"0xfffffffffffffffffffffffffffffffff"), None);
    assert_eq!(convert_string_to_u128(b"abc"), None);
    assert_eq!(convert_string_to_u128(b""), None);
    assert_eq!(convert_string_to_u128(b"0x"), None);
    assert_eq!(convert_string_to_u128(b" 42"), None);
}

#[test]
fn resolve_splits_objects_from_pure_arguments() {
    // One object parameter, one primitive, and the implicit context.
    let params = vec![MoveTypeTag::Struct, MoveTypeTag::U64, MoveTypeTag::Struct];
    let args = vec![valid(s("0x5")), valid(num(7))];
    let (ids, pure) = resolve_move_function_args(&params, args).unwrap();
    assert_eq!(ids.len(), 1);
    let mut expected_id = vec![0u8; 20];
    expected_id[19] = 0x05;
    assert_eq!(ids[0].bytes, expected_id);
    assert_eq!(pure.len(), 1);
    assert_eq!(pure[0], 7u64.to_le_bytes().to_vec());
}

#[test]
fn resolve_with_no_object_parameters() {
    let params = vec![MoveTypeTag::U64, MoveTypeTag::Address, MoveTypeTag::Struct];
    let args = vec![valid(num(1)), valid(s("0x2a"))];
    let (ids, pure) = resolve_move_function_args(&params, args).unwrap();
    assert!(ids.is_empty());
    assert_eq!(pure.len(), 2);
}

#[test]
fn resolve_with_no_primitive_parameters() {
    let params = vec![MoveTypeTag::Struct, MoveTypeTag::Struct];
    let args = vec![valid(s("0xaa"))];
    let (ids, pure) = resolve_move_function_args(&params, args).unwrap();
    assert_eq!(ids.len(), 1);
    assert!(pure.is_empty());
}

#[test]
fn resolve_rejects_wrong_argument_count() {
    let params = vec![MoveTypeTag::U64, MoveTypeTag::Address, MoveTypeTag::Struct];
    let args = vec![valid(num(1))];
    match resolve_move_function_args(&params, args) {
        Err(ResolveError::ArgumentCount { expected, found }) => {
            assert_eq!(expected, 2);
            assert_eq!(found, 1);
        }
        _ => panic!("expected an argument-count error"),
    }
}

#[test]
fn resolve_rejects_object_argument_after_primitive() {
    // The object-typed parameter behind the first primitive one cannot be
    // fed: its string argument fails to encode against an object type.
    let params =
        vec![MoveTypeTag::Struct, MoveTypeTag::U64, MoveTypeTag::Struct, MoveTypeTag::Struct];
    let args = vec![valid(s("0x1")), valid(num(1)), valid(s("0x2"))];
    match resolve_move_function_args(&params, args) {
        Err(ResolveError::TypeMismatch { index, .. }) => assert_eq!(index, 2),
        _ => panic!("expected a mismatch at the trailing object argument"),
    }
}

#[test]
fn resolve_rejects_malformed_object_ids() {
    let params = vec![MoveTypeTag::Struct, MoveTypeTag::U64, MoveTypeTag::Struct];
    let args = vec![valid(num(5)), valid(num(7))];
    match resolve_move_function_args(&params, args) {
        Err(ResolveError::ObjectIdFormat { index, .. }) => assert_eq!(index, 0),
        _ => panic!("expected an object-id format error"),
    }
    let params2 = vec![MoveTypeTag::Struct, MoveTypeTag::U64, MoveTypeTag::Struct];
    let args2 = vec![valid(s("2a")), valid(num(7))];
    assert!(matches!(
        resolve_move_function_args(&params2, args2),
        Err(ResolveError::ObjectIdFormat { index: 0, .. })
    ));
}
