use ff7_extract::files::{AnimationFile, File, HierarchyFile, Parse, PolygonFile};
use ff7_extract::lgp::LGPFile;
use ff7_extract::model::{hierarchy_names, kind_of, DecompressError, ModelData, ModelFile, ModelKind};
use ff7_extract::shader::ShaderType;

fn expect_kind(r: Result<ModelFile, DecompressError>, want: ModelKind, data: &[u8]) {
    match r {
        Ok(m) => {
            let (kind, raw) = match m {
                ModelFile::Hierarchy(ModelData::Raw(d)) => (ModelKind::Hierarchy, d),
                ModelFile::Resources(ModelData::Raw(d)) => (ModelKind::Resources, d),
                ModelFile::Polygons(ModelData::Raw(d)) => (ModelKind::Polygons, d),
                ModelFile::Textures(ModelData::Raw(d)) => (ModelKind::Textures, d),
                ModelFile::Animation(ModelData::Raw(d)) => (ModelKind::Animation, d),
                _ => panic!("classification returned a parsed file"),
            };
            assert_eq!(kind, want);
            assert_eq!(raw, data.to_vec());
        },
        Err(_) => panic!("classification failed"),
    }
}

#[test]
fn classifies_known_extensions() {
    expect_kind(ModelFile::new("CLOUD.HRC", vec![1, 2]), ModelKind::Hierarchy, &[1, 2]);
    expect_kind(ModelFile::new("CLOUD.RSD", vec![3]), ModelKind::Resources, &[3]);
    expect_kind(ModelFile::new("CLOUD.TEX", vec![]), ModelKind::Textures, &[]);
    expect_kind(ModelFile::new("CLOUD.P", vec![4]), ModelKind::Polygons, &[4]);
    expect_kind(ModelFile::new("CLOUD.A", vec![5]), ModelKind::Animation, &[5]);
}

#[test]
fn classification_ignores_ascii_case() {
    expect_kind(ModelFile::new("cloud.hrc", vec![]), ModelKind::Hierarchy, &[]);
    expect_kind(ModelFile::new("Cloud.HrC", vec![]), ModelKind::Hierarchy, &[]);
    expect_kind(ModelFile::new("x.tEx", vec![]), ModelKind::Textures, &[]);
    expect_kind(ModelFile::new("x.p", vec![]), ModelKind::Polygons, &[]);
    expect_kind(ModelFile::new("x.a", vec![]), ModelKind::Animation, &[]);
}

#[test]
fn unknown_or_missing_extension_is_rejected() {
    for name in ["CLOUD", "CLOUD.XYZ", "CLOUD.HRCX", "CLOUD.", ".hrc", ".", ""] {
        match ModelFile::new(name, vec![1]) {
            Err(e) => assert_eq!(e, DecompressError::UnknownType, "name {name:?}"),
            Ok(_) => panic!("name {name:?} classified"),
        }
    }
}

#[test]
fn extension_is_taken_after_the_last_dot() {
    expect_kind(ModelFile::new("A.TXT.HRC", vec![]), ModelKind::Hierarchy, &[]);
    match ModelFile::new("A.HRC.TXT", vec![]) {
        Err(e) => assert_eq!(e, DecompressError::UnknownType),
        Ok(_) => panic!("trailing unknown extension classified"),
    }
}

#[test]
fn kind_of_matches_classification() {
    assert_eq!(kind_of("B.rsd"), Some(ModelKind::Resources));
    assert_eq!(kind_of("noext"), None);
    assert_eq!(kind_of(".hrc"), None);
}

#[test]
fn hierarchy_names_filters_in_archive_order() {
    fn pad20(name: &[u8]) -> Vec<u8> {
        let mut v = name.to_vec();
        v.resize(20, 0);
        v
    }
    let names: [&[u8]; 3] = [b"A.HRC", b"B.TEX", b"C.hrc"];
    let mut d = Vec::new();
    d.extend_from_slice(b"SQUARESOFT\0\0");
    d.extend_from_slice(&3u32.to_le_bytes());
    let base = 16 + 27 * 3;
    for (x, name) in names.iter().enumerate() {
        d.extend_from_slice(&pad20(name));
        d.extend_from_slice(&((base + 25 * x) as u32).to_le_bytes());
        d.push(0x0E);
        d.extend_from_slice(&0u16.to_le_bytes());
    }
    for (x, name) in names.iter().enumerate() {
        assert_eq!(d.len(), base + 25 * x);
        d.extend_from_slice(&pad20(name));
        d.extend_from_slice(&1u32.to_le_bytes());
        d.push(x as u8);
    }
    d.extend_from_slice(b"FINAL FANTASY7");
    let f = LGPFile::from_bytes(&d).unwrap_or_else(|_| panic!("parse failed"));
    assert_eq!(hierarchy_names(&f), vec!["A.HRC".to_string(), "C.hrc".to_string()]);
}

#[test]
fn decompress_error_messages() {
    assert_eq!(
        DecompressError::Utf8Error.message(),
        "A filename in the archive was found to be invalid UTF-8."
    );
    assert_eq!(
        DecompressError::UnknownType.message(),
        "A file in the archive was of an unknown type."
    );
    assert_eq!(
        DecompressError::DuplicateFile.message(),
        "There are some filenames in the archive that appear more than once."
    );
}

#[test]
fn typed_files_keep_their_bytes() {
    let h = HierarchyFile::from_bytes(&[1, 2, 3]).unwrap_or_else(|_| panic!("parse failed"));
    assert_eq!(h.data, vec![1, 2, 3]);
    let p = PolygonFile::from_bytes(&[]).unwrap_or_else(|_| panic!("parse failed"));
    assert_eq!(p.data, Vec::<u8>::new());
    let a = AnimationFile::from_bytes(&[9]).unwrap_or_else(|_| panic!("parse failed"));
    assert_eq!(a.data, vec![9]);
}

#[test]
fn file_kind_names() {
    let h = HierarchyFile::from_bytes(&[1]).unwrap_or_else(|_| panic!("parse failed"));
    assert_eq!(File::HierarchyFile(h).kind_name(), "HierarchyFile");
    let p = PolygonFile::from_bytes(&[1]).unwrap_or_else(|_| panic!("parse failed"));
    assert_eq!(File::PolygonFile(p).kind_name(), "PolygonFile");
}

#[test]
fn shader_type_codes_and_labels() {
    assert_eq!(ShaderType::Vertex.gl_code(), 0x8B31);
    assert_eq!(ShaderType::Fragment.gl_code(), 0x8B30);
    assert_eq!(ShaderType::Vertex.label(), "vertex");
    assert_eq!(ShaderType::Fragment.label(), "fragment");
}
