use code_ls::mark::FileMark;

#[test]
fn every_byte_of_the_table_has_its_mark() {
    assert_eq!(FileMark::from(b'@'), FileMark::File);
    assert_eq!(FileMark::from(b'$'), FileMark::FunctionDefinition);
    assert_eq!(FileMark::from(b'`'), FileMark::FunctionCall);
    assert_eq!(FileMark::from(b'}'), FileMark::FunctionEnd);
    assert_eq!(FileMark::from(b'#'), FileMark::Define);
    assert_eq!(FileMark::from(b')'), FileMark::DefineEnd);
    assert_eq!(FileMark::from(b'~'), FileMark::IncludeDirective);
    assert_eq!(FileMark::from(b'='), FileMark::DirectAssignmentIncDec);
    assert_eq!(FileMark::from(b';'), FileMark::EnumStructUnionDefinitionEnd);
    assert_eq!(FileMark::from(b'c'), FileMark::ClassDefinition);
    assert_eq!(FileMark::from(b'e'), FileMark::EnumDefinition);
    assert_eq!(FileMark::from(b'g'), FileMark::OtherGlobalDefinition);
    assert_eq!(FileMark::from(b'l'), FileMark::FunctionBlockLocalDefinition);
    assert_eq!(FileMark::from(b'm'), FileMark::EnumStructUnionMemberGlobalDefinition);
    assert_eq!(FileMark::from(b'p'), FileMark::FunctionParameterDefinition);
    assert_eq!(FileMark::from(b's'), FileMark::StructDefinition);
    assert_eq!(FileMark::from(b't'), FileMark::TypedefDefinition);
    assert_eq!(FileMark::from(b'u'), FileMark::UnionDefinition);
}

#[test]
fn every_other_byte_is_unrecognized() {
    let table = b"@$`}#)~=;ceglmpstu";
    let mut recognized = 0;
    for byte in 0..=255u8 {
        let mark = FileMark::from(byte);
        if table.contains(&byte) {
            assert_ne!(mark, FileMark::Unrecognized);
            recognized += 1;
        } else {
            assert_eq!(mark, FileMark::Unrecognized);
        }
    }
    assert_eq!(recognized, 18);
}

#[test]
fn bytes_near_the_table_are_unrecognized() {
    assert_eq!(FileMark::from(0), FileMark::Unrecognized);
    assert_eq!(FileMark::from(b'\t'), FileMark::Unrecognized);
    assert_eq!(FileMark::from(b'A'), FileMark::Unrecognized);
    assert_eq!(FileMark::from(b'C'), FileMark::Unrecognized);
    assert_eq!(FileMark::from(b'd'), FileMark::Unrecognized);
    assert_eq!(FileMark::from(b'{'), FileMark::Unrecognized);
    assert_eq!(FileMark::from(0xff), FileMark::Unrecognized);
}

#[test]
fn a_byte_converts_into_its_mark() {
    let mark: FileMark = b'$'.into();
    assert_eq!(mark, FileMark::FunctionDefinition);
}
