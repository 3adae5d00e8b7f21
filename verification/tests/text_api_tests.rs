use geoprint3d_backend::api::{error_body_from_json, ApiError};
use geoprint3d_backend::export::MeshExporter;
use geoprint3d_backend::logger::{
    archived_file_name, format_log_batch, needs_rotation, push_log_line, FrontendLogBatch, FrontendLogEntry, WEEK_SECS,
};
use geoprint3d_backend::mesh::TerrainMesh;
use geoprint3d_backend::text::{decimal_string, push_decimal, push_padded, str_eq};

fn entry(level: &str, line: Option<u32>, message: &str) -> FrontendLogEntry {
    FrontendLogEntry {
        timestamp: "2026-01-18T16:15:18.992Z".to_string(),
        level: level.to_string(),
        file: "App.tsx".to_string(),
        line,
        message: message.to_string(),
    }
}

#[test]
fn decimals() {
    assert_eq!(decimal_string(0), "0");
    assert_eq!(decimal_string(7), "7");
    assert_eq!(decimal_string(1234567), "1234567");
    assert_eq!(decimal_string(u64::MAX), u64::MAX.to_string());
    let mut s = String::from("x=");
    push_decimal(&mut s, 42);
    assert_eq!(s, "x=42");
}

#[test]
fn padding_and_equality() {
    let mut s = String::new();
    push_padded(&mut s, "info", 5);
    assert_eq!(s, " info");
    let mut t = String::new();
    push_padded(&mut t, "error", 5);
    push_padded(&mut t, "verbose", 5);
    assert_eq!(t, "errorverbose");
    assert!(str_eq("abc", "abc"));
    assert!(!str_eq("abc", "abd"));
    assert!(!str_eq("abc", "ab"));
}

#[test]
fn frontend_log_lines() {
    let batch = FrontendLogBatch {
        entries: vec![entry("info", Some(42), "mounted"), entry("warn", None, "slow tile")],
    };
    assert_eq!(
        format_log_batch(&batch),
        "2026-01-18T16:15:18.992Z [ info] App.tsx:42 — mounted\n2026-01-18T16:15:18.992Z [ warn] App.tsx:? — slow tile\n"
    );
    let mut out = String::from("> ");
    push_log_line(&mut out, &entry("error", Some(0), "x"));
    assert_eq!(out, "> 2026-01-18T16:15:18.992Z [error] App.tsx:0 — x\n");
    assert_eq!(format_log_batch(&FrontendLogBatch { entries: vec![] }), "");
}

#[test]
fn rotation_after_one_week() {
    assert_eq!(WEEK_SECS, 7 * 24 * 3600);
    assert!(!needs_rotation(0));
    assert!(!needs_rotation(WEEK_SECS));
    assert!(needs_rotation(WEEK_SECS + 1));
    assert_eq!(archived_file_name("backend.log", "2026-01-18"), "backend.log.2026-01-18");
}

#[test]
fn api_errors_answer_with_status_and_json() {
    let bad = ApiError::BadRequest("Bounding box too large".to_string());
    assert_eq!(bad.status_code(), 400);
    assert_eq!(bad.message(), "Bounding box too large");
    assert_eq!(bad.body(), "{\"error\":\"Bounding box too large\"}");
    let internal = ApiError::InternalError("say \"hi\"\n".to_string());
    assert_eq!(internal.status_code(), 500);
    assert_eq!(internal.body(), "{\"error\":\"say \\\"hi\\\"\\n\"}");
    assert_eq!(error_body_from_json("null"), "{\"error\":null}");
}

#[test]
fn preview_keeps_every_nth_triangle() {
    let mesh: TerrainMesh<u8> = TerrainMesh {
        vertices: vec![1, 2, 3],
        triangles: (0..7).map(|i| [i, i + 1, i + 2]).collect(),
    };
    let p = MeshExporter::preview_mesh(&mesh, 3);
    assert_eq!(p.vertices, vec![1, 2, 3]);
    assert_eq!(p.triangles, vec![[0, 1, 2], [3, 4, 5], [6, 7, 8]]);
    let same = MeshExporter::preview_mesh(&mesh, 1);
    assert_eq!(same.triangles, mesh.triangles);
    let one = MeshExporter::preview_mesh(&mesh, 100);
    assert_eq!(one.triangles, vec![[0, 1, 2]]);
}

#[test]
fn obj_faces_are_one_based() {
    let mesh: TerrainMesh<u8> = TerrainMesh { vertices: vec![], triangles: vec![[0, 1, 2], [2, 1, 9]] };
    assert_eq!(MeshExporter::obj_faces(&mesh), "f 1 2 3\nf 3 2 10\n");
    let empty: TerrainMesh<u8> = TerrainMesh { vertices: vec![], triangles: vec![] };
    assert_eq!(MeshExporter::obj_faces(&empty), "");
}

#[test]
fn two_batches_append_like_one() {
    let one = FrontendLogBatch { entries: vec![entry("info", Some(1), "a")] };
    let two = FrontendLogBatch { entries: vec![entry("debug", None, "b"), entry("warn", Some(3), "c")] };
    let all = FrontendLogBatch {
        entries: vec![entry("info", Some(1), "a"), entry("debug", None, "b"), entry("warn", Some(3), "c")],
    };
    assert_eq!(format_log_batch(&one) + &format_log_batch(&two), format_log_batch(&all));
}

#[test]
fn error_body_escapes_control_characters() {
    let e = ApiError::BadRequest("tab\there\u{1}\u{1f}\\é".to_string());
    assert_eq!(e.body(), "{\"error\":\"tab\\there\\u0001\\u001f\\\\é\"}");
    let f = ApiError::InternalError("\u{8}\u{c}\r".to_string());
    assert_eq!(f.body(), "{\"error\":\"\\b\\f\\r\"}");
}

#[test]
fn resolution_range_is_50_to_200() {
    assert!(!geoprint3d_backend::api::resolution_in_range(0));
    assert!(!geoprint3d_backend::api::resolution_in_range(49));
    assert!(geoprint3d_backend::api::resolution_in_range(50));
    assert!(geoprint3d_backend::api::resolution_in_range(150));
    assert!(geoprint3d_backend::api::resolution_in_range(200));
    assert!(!geoprint3d_backend::api::resolution_in_range(201));
}
