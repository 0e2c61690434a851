use static_dt_rs::{DeviceTree, Error, Token};
use static_dt_rs::utils::{get_fdt_string, read_fdt_u32, read_fdt_u64};

fn begin_node(structs: &mut Vec<u8>, name: &[u8]) {
    structs.extend_from_slice(&1u32.to_be_bytes());
    structs.extend_from_slice(name);
    structs.push(0);
    while structs.len() % 4 != 0 {
        structs.push(0);
    }
}

fn end_node(structs: &mut Vec<u8>) {
    structs.extend_from_slice(&2u32.to_be_bytes());
}

fn add_name(strings: &mut Vec<u8>, name: &[u8]) -> u32 {
    let off = strings.len() as u32;
    strings.extend_from_slice(name);
    strings.push(0);
    off
}

fn prop(structs: &mut Vec<u8>, strings: &mut Vec<u8>, name: &[u8], value: &[u8]) {
    let nameoff = add_name(strings, name);
    structs.extend_from_slice(&3u32.to_be_bytes());
    structs.extend_from_slice(&(value.len() as u32).to_be_bytes());
    structs.extend_from_slice(&nameoff.to_be_bytes());
    structs.extend_from_slice(value);
    while structs.len() % 4 != 0 {
        structs.push(0);
    }
}

fn cells(values: &[u32]) -> Vec<u8> {
    let mut out = Vec::new();
    for v in values {
        out.extend_from_slice(&v.to_be_bytes());
    }
    out
}

/// Builds the fixture blob: a tree with `/node1` and `/node2`, where
/// `/node1/child-node1` carries a phandle that `/node2/a-phandle-property`
/// points at.
///
/// Layout: 40-byte header (version 17, last compatible version 16), then
/// the structure block, then the strings block.
fn build_fdt() -> Vec<u8> {
    let mut structs: Vec<u8> = Vec::new();
    let mut strings: Vec<u8> = Vec::new();

    begin_node(&mut structs, b""); // root
    {
        begin_node(&mut structs, b"node1");
        prop(
            &mut structs,
            &mut strings,
            b"a-byte-data-property",
            &[0x01, 0x23, 0x45, 0x67],
        );
        prop(&mut structs, &mut strings, b"a-string-property", b"A string\0");
        {
            begin_node(&mut structs, b"child-node1");
            prop(&mut structs, &mut strings, b"phandle", &cells(&[13]));
            prop(&mut structs, &mut strings, b"first-child-property", b"");
            prop(
                &mut structs,
                &mut strings,
                b"a-string-property",
                b"Hello, world\0",
            );
            prop(&mut structs, &mut strings, b"second-child-property", b"");
            end_node(&mut structs);
        }
        end_node(&mut structs);

        begin_node(&mut structs, b"node2");
        prop(&mut structs, &mut strings, b"a-cell-property", &cells(&[1, 2, 3, 4]));
        prop(&mut structs, &mut strings, b"an-empty-property", b"");
        prop(&mut structs, &mut strings, b"a-phandle-property", &cells(&[13]));
        end_node(&mut structs);
    }
    end_node(&mut structs); // root
    structs.extend_from_slice(&9u32.to_be_bytes()); // end of structure block

    let mut fdt: Vec<u8> = Vec::new();
    let totalsize = 40 + structs.len() + strings.len();
    fdt.extend_from_slice(&0xD00DFEEDu32.to_be_bytes()); // magic
    fdt.extend_from_slice(&(totalsize as u32).to_be_bytes()); // totalsize
    fdt.extend_from_slice(&40u32.to_be_bytes()); // off_dt_struct
    fdt.extend_from_slice(&((40 + structs.len()) as u32).to_be_bytes()); // off_dt_strings
    fdt.extend_from_slice(&0u32.to_be_bytes()); // off_mem_rsvmap (unused)
    fdt.extend_from_slice(&17u32.to_be_bytes()); // version
    fdt.extend_from_slice(&16u32.to_be_bytes()); // last_comp_version
    fdt.extend_from_slice(&0u32.to_be_bytes()); // boot_cpuid_phys
    fdt.extend_from_slice(&(strings.len() as u32).to_be_bytes()); // size_dt_strings
    fdt.extend_from_slice(&(structs.len() as u32).to_be_bytes()); // size_dt_struct
    fdt.extend_from_slice(&structs);
    fdt.extend_from_slice(&strings);
    fdt
}

fn print_token(token: &Token) {
    match token {
        Token::BeginNode(_, _, name) => {
            println!("node {}", String::from_utf8_lossy(name))
        }
        Token::EndNode => {
            println!("end-node")
        }
        Token::Invalid(id) => {
            println!("Invalid token {}", id)
        }
        Token::Property(_, name, _) => {
            println!("prop {}", String::from_utf8_lossy(name))
        }
        Token::NoOperation => {
            println!("nop")
        }
        _ => (),
    }
}

#[test]
fn parse_header() {
    let fdt = build_fdt();
    let dt = DeviceTree::back(&fdt).unwrap();

    assert_eq!(dt.version(), 17)
}

#[test]
fn parse_nodes() {
    let fdt = build_fdt();
    let dt = DeviceTree::back(&fdt).unwrap();

    println!("---- token iterator ----");
    let mut it = dt.tokens();
    while let Some(token) = it.next() {
        print_token(&token);
    }

    println!("---- hierarchy token iterator ----");
    let mut root_it = dt.root().into_iter();
    while let Some(token) = root_it.next() {
        print_token(&token);
        match token {
            Token::BeginNode(_, _, _) => {
                println!(">>>>>>>>>>>>>");
                let mut inner = token.into_iter();
                while let Some(tok) = inner.next() {
                    print_token(&tok);
                }
                println!("<<<<<<<<<<<<<");
            }
            _ => (),
        }
    }
}

#[test]
fn test_len_prop() {
    let fdt = build_fdt();
    let dt = DeviceTree::back(&fdt).unwrap();
    let node1 = dt.root().get_node(b"node1").unwrap();

    /* Test properties in node1 */
    let prop = node1.get_prop(b"a-byte-data-property").unwrap();
    assert_eq!(prop.len(), 4);
}

#[test]
fn test_len_node() {
    let fdt = build_fdt();
    let dt = DeviceTree::back(&fdt).unwrap();
    let node1 = dt.root().get_node(b"node1").unwrap();

    /* Test child node of node1 */
    let prop = node1.get_node(b"child-node1").unwrap();
    assert_eq!(prop.len(), 4);
}

#[test]
fn test_prop_a_cell_property() {
    let fdt = build_fdt();
    let dt = DeviceTree::back(&fdt).unwrap();
    let node2 = dt.root().get_node(b"node2").unwrap();

    /* Test properties in node2 */
    let prop = node2.get_prop(b"a-cell-property").unwrap();
    assert_eq!(prop.prop_u32(2).unwrap(), 3);
}

#[test]
fn test_prop_an_empty_property() {
    let fdt = build_fdt();
    let dt = DeviceTree::back(&fdt).unwrap();
    let node2 = dt.root().get_node(b"node2").unwrap();

    /* Test properties in node2 */
    let prop = node2.get_prop(b"an-empty-property").unwrap();
    assert!(prop.empty());
}

#[test]
fn test_prop_a_string_property() {
    let fdt = build_fdt();
    let dt = DeviceTree::back(&fdt).unwrap();
    let node1 = dt.root().get_node(b"node1").unwrap();

    /* Test properties in node1 */
    let prop = node1.get_prop(b"a-string-property").unwrap();
    assert_eq!(prop.prop_str().unwrap(), b"A string");
}

#[test]
fn test_phandle() {
    let fdt = build_fdt();
    let dt = DeviceTree::back(&fdt).unwrap();
    let node2 = dt.root().get_node(b"node2").unwrap();

    /* a-phandle-property points to '/node1/child-node1' */
    let phandle_prop = node2.get_prop(b"a-phandle-property").unwrap();

    /* prop_phandle() reads one cell and tries to find a matching phandle, returning None if unsuccessful */
    let phandle_node = phandle_prop.prop_phandle().unwrap();

    /* Verify that phandle_node is '/node1/child-node1' */
    let prop = phandle_node.get_prop(b"a-string-property").unwrap();
    assert_eq!(prop.prop_str().unwrap(), b"Hello, world");
}

#[test]
fn test_open_rejects_bad_magic() {
    let mut fdt = build_fdt();
    fdt[0] = 0xFF;
    let r = DeviceTree::back(&fdt);
    assert!(matches!(r, Err(Error::InvalidMagic)));
}

#[test]
fn test_open_reports_unsupported_version() {
    let mut fdt = build_fdt();
    /* last compatible version field sits at byte offset 24 */
    fdt[24..28].copy_from_slice(&17u32.to_be_bytes());
    let r = DeviceTree::back(&fdt);
    match r {
        Err(Error::UnsupportedVersion(v)) => assert_eq!(v, 17),
        _ => panic!("expected an unsupported-version failure"),
    }
}

#[test]
fn test_header_fields() {
    let fdt = build_fdt();
    let dt = DeviceTree::back(&fdt).unwrap();
    assert_eq!(dt.magic(), 0xD00DFEED);
    assert_eq!(dt.totalsize(), fdt.len());
    assert_eq!(dt.last_comp_version(), 16);
    assert_eq!(dt.boot_cpuid_phys(), 0);
}

#[test]
fn test_root_is_node() {
    let fdt = build_fdt();
    let dt = DeviceTree::back(&fdt).unwrap();
    let root = dt.root();
    assert!(matches!(root, Token::BeginNode(_, _, _)));
    assert_eq!(root.name(), b"");
}

#[test]
fn test_node_len_counts_items_only() {
    let fdt = build_fdt();
    let dt = DeviceTree::back(&fdt).unwrap();
    let root = dt.root();
    assert_eq!(root.len(), 2);
    let node1 = root.get_node(b"node1").unwrap();
    assert_eq!(node1.len(), 3);
    assert!(!node1.empty());
    let node2 = root.get_node(b"node2").unwrap();
    assert_eq!(node2.len(), 3);
}

#[test]
fn test_token_names_and_len_for_markers() {
    assert_eq!(Token::EndNode.name(), b"end-node");
    assert_eq!(Token::NoOperation.name(), b"nop");
    assert_eq!(Token::End.name(), b"end");
    assert_eq!(Token::Invalid(7).name(), b"-");
    assert_eq!(Token::EndNode.len(), 0);
    assert!(Token::End.empty());
}

#[test]
fn test_read_cell_out_of_range() {
    let fdt = build_fdt();
    let dt = DeviceTree::back(&fdt).unwrap();
    let node1 = dt.root().get_node(b"node1").unwrap();
    let prop = node1.get_prop(b"a-byte-data-property").unwrap();
    assert_eq!(prop.prop_u32(0), Some(0x01234567));
    assert_eq!(prop.prop_u32(1), None);
    assert_eq!(prop.prop_u32(usize::MAX / 4), None);
    let node2 = dt.root().get_node(b"node2").unwrap();
    let empty = node2.get_prop(b"an-empty-property").unwrap();
    assert_eq!(empty.prop_u32(0), None);
}

#[test]
fn test_read_byte() {
    let fdt = build_fdt();
    let dt = DeviceTree::back(&fdt).unwrap();
    let node1 = dt.root().get_node(b"node1").unwrap();
    let prop = node1.get_prop(b"a-byte-data-property").unwrap();
    assert_eq!(prop.prop_u8(0), Some(0x01));
    assert_eq!(prop.prop_u8(3), Some(0x67));
    assert_eq!(prop.prop_u8(4), None);
    assert_eq!(node1.prop_u8(0), None);
}

#[test]
fn test_prop_str_without_terminator() {
    let fdt = build_fdt();
    let dt = DeviceTree::back(&fdt).unwrap();
    let node1 = dt.root().get_node(b"node1").unwrap();
    let prop = node1.get_prop(b"a-byte-data-property").unwrap();
    assert_eq!(prop.prop_str(), None);
    assert_eq!(node1.prop_str(), None);
}

#[test]
fn test_byte_primitives() {
    let buf = [0x12u8, 0x34, 0x56, 0x78, 0x9A, 0xBC, 0xDE, 0xF0];
    assert_eq!(read_fdt_u32(&buf, 0), 0x12345678);
    assert_eq!(read_fdt_u32(&buf, 4), 0x9ABCDEF0);
    assert_eq!(read_fdt_u64(&buf, 0), 0x123456789ABCDEF0);
    let s = [b'h', b'i', 0, b'x'];
    assert_eq!(get_fdt_string(&s, 0), Some(&b"hi"[..]));
    assert_eq!(get_fdt_string(&s, 3), None);
    assert_eq!(get_fdt_string(&s, 4), None);
}

#[test]
fn test_lookup_absent() {
    let fdt = build_fdt();
    let dt = DeviceTree::back(&fdt).unwrap();
    let root = dt.root();
    assert!(root.get_node(b"node-i-dont-exist").is_none());
    assert!(root.get_prop(b"a-byte-data-property").is_none()); // lives in node1, not in root
    let node1 = root.get_node(b"node1").unwrap();
    assert!(node1.get_node(b"node2").is_none()); // sibling, not a child
    assert!(node1.get_prop(b"a-cell-property").is_none()); // lives in node2
    assert!(node1.get_node(b"a-string-property").is_none()); // a property, not a node
    assert!(node1.get_prop(b"child-node1").is_none()); // a node, not a property
}

#[test]
fn test_lookups_idempotent() {
    let fdt = build_fdt();
    let dt = DeviceTree::back(&fdt).unwrap();
    let root = dt.root();
    let a = root.get_node(b"node1").unwrap();
    let b = root.get_node(b"node1").unwrap();
    assert_eq!(a.name(), b.name());
    assert_eq!(a.len(), b.len());
    let p = a.get_prop(b"a-byte-data-property").unwrap();
    let q = a.get_prop(b"a-byte-data-property").unwrap();
    assert_eq!(p.name(), q.name());
    assert_eq!(p.len(), q.len());
    assert_eq!(p.prop_u32(0), q.prop_u32(0));
    assert_eq!(p.prop_u8(2), q.prop_u8(2));
    assert_eq!(p.prop_str(), q.prop_str());
}

#[test]
fn test_round_trip_names() {
    let fdt = build_fdt();
    let dt = DeviceTree::back(&fdt).unwrap();
    let node2 = dt.root().get_node(b"node2").unwrap();
    let mut yielded: Vec<Vec<u8>> = Vec::new();
    let mut it = node2.into_iter();
    while let Some(tok) = it.next() {
        match tok {
            Token::BeginNode(_, _, name) => {
                yielded.push(name.to_vec());
                assert!(node2.get_node(name).is_some());
            }
            Token::Property(_, name, _) => {
                yielded.push(name.to_vec());
                assert!(node2.get_prop(name).is_some());
            }
            _ => (),
        }
    }
    assert_eq!(
        yielded,
        vec![
            b"a-cell-property".to_vec(),
            b"an-empty-property".to_vec(),
            b"a-phandle-property".to_vec()
        ]
    );
}

#[test]
fn test_scoped_iteration_yields_no_grandchildren() {
    let fdt = build_fdt();
    let dt = DeviceTree::back(&fdt).unwrap();
    let node1 = dt.root().get_node(b"node1").unwrap();
    let mut seen: Vec<String> = Vec::new();
    let mut it = node1.into_iter();
    while let Some(tok) = it.next() {
        match tok {
            Token::BeginNode(_, _, name) => {
                seen.push(format!("node {}", String::from_utf8_lossy(name)))
            }
            Token::Property(_, name, _) => {
                seen.push(format!("prop {}", String::from_utf8_lossy(name)))
            }
            Token::EndNode => seen.push("end".to_string()),
            _ => (),
        }
    }
    /* child-node1's own properties stay hidden; its end-node closes it */
    assert_eq!(
        seen,
        vec![
            "prop a-byte-data-property".to_string(),
            "prop a-string-property".to_string(),
            "node child-node1".to_string(),
            "end".to_string()
        ]
    );
}

#[test]
fn test_whole_tree_scope_is_root_only() {
    let fdt = build_fdt();
    let dt = DeviceTree::back(&fdt).unwrap();
    let mut names: Vec<Vec<u8>> = Vec::new();
    let mut ends: usize = 0;
    let root = dt.root();
    /* a scoped walk of root's body sees the two top-level nodes only */
    let mut it = root.into_iter();
    while let Some(tok) = it.next() {
        match tok {
            Token::BeginNode(_, _, name) => names.push(name.to_vec()),
            Token::EndNode => ends += 1,
            _ => (),
        }
    }
    assert_eq!(names, vec![b"node1".to_vec(), b"node2".to_vec()]);
    assert_eq!(ends, 2);
}

#[test]
fn test_get_phandle_reserved_and_absent() {
    let fdt = build_fdt();
    let dt = DeviceTree::back(&fdt).unwrap();
    assert!(dt.get_phandle(0).is_none());
    assert!(dt.get_phandle(9999).is_none());
    assert!(dt.get_phandle(13).is_some());
    /* an empty property cannot carry a phandle */
    let node2 = dt.root().get_node(b"node2").unwrap();
    let empty = node2.get_prop(b"an-empty-property").unwrap();
    assert!(empty.prop_phandle().is_none());
    /* a node is not a property */
    assert!(node2.prop_phandle().is_none());
}

/// Assembles a blob around a hand-built structure and strings block.
fn assemble(structs: &[u8], strings: &[u8]) -> Vec<u8> {
    let mut fdt: Vec<u8> = Vec::new();
    let totalsize = 40 + structs.len() + strings.len();
    fdt.extend_from_slice(&0xD00DFEEDu32.to_be_bytes());
    fdt.extend_from_slice(&(totalsize as u32).to_be_bytes());
    fdt.extend_from_slice(&40u32.to_be_bytes());
    fdt.extend_from_slice(&((40 + structs.len()) as u32).to_be_bytes());
    fdt.extend_from_slice(&0u32.to_be_bytes());
    fdt.extend_from_slice(&17u32.to_be_bytes());
    fdt.extend_from_slice(&16u32.to_be_bytes());
    fdt.extend_from_slice(&0u32.to_be_bytes());
    fdt.extend_from_slice(&(strings.len() as u32).to_be_bytes());
    fdt.extend_from_slice(&(structs.len() as u32).to_be_bytes());
    fdt.extend_from_slice(structs);
    fdt.extend_from_slice(strings);
    fdt
}

#[test]
fn test_nop_excluded_from_len() {
    let mut structs: Vec<u8> = Vec::new();
    let mut strings: Vec<u8> = Vec::new();
    begin_node(&mut structs, b"");
    begin_node(&mut structs, b"n");
    structs.extend_from_slice(&4u32.to_be_bytes()); // no-operation
    prop(&mut structs, &mut strings, b"p", b"");
    end_node(&mut structs);
    end_node(&mut structs);
    structs.extend_from_slice(&9u32.to_be_bytes());
    let fdt = assemble(&structs, &strings);

    let dt = DeviceTree::back(&fdt).unwrap();
    let n = dt.root().get_node(b"n").unwrap();
    /* the filler token is yielded by iteration but not counted */
    assert_eq!(n.len(), 1);
    let mut kinds: Vec<&str> = Vec::new();
    let mut it = n.into_iter();
    while let Some(tok) = it.next() {
        kinds.push(match tok {
            Token::BeginNode(_, _, _) => "begin",
            Token::EndNode => "end",
            Token::Property(_, _, _) => "prop",
            Token::NoOperation => "nop",
            _ => "other",
        });
    }
    assert_eq!(kinds, vec!["nop", "prop"]);
}

#[test]
fn test_unknown_id_ends_stream() {
    let mut structs: Vec<u8> = Vec::new();
    let mut strings: Vec<u8> = Vec::new();
    begin_node(&mut structs, b"");
    end_node(&mut structs);
    structs.extend_from_slice(&7u32.to_be_bytes()); // unrecognized id
    begin_node(&mut structs, b"never-reached");
    let _ = &mut strings;
    let fdt = assemble(&structs, &strings);

    let dt = DeviceTree::back(&fdt).unwrap();
    let mut count: usize = 0;
    let mut it = dt.tokens();
    while let Some(_tok) = it.next() {
        count += 1;
    }
    /* the unrecognized id stops the sequence: only the begin/end pair */
    assert_eq!(count, 2);
}
