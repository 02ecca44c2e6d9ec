use iplusone::error::KnowledgeError;

#[test]
fn database_error_says_why() {
    let e = KnowledgeError::DatabaseError("disk full".to_string());
    assert_eq!(e.message(), "Database error! Error: disk full");
}

#[test]
fn migration_error_says_why() {
    let e = KnowledgeError::MigrationError("no such table".to_string());
    assert_eq!(e.message(), "Migration error! Error: no such table");
}

#[test]
fn tokenize_error_has_a_fixed_text() {
    assert_eq!(KnowledgeError::TokenizeError.message(), "Error tokenizing sentence!");
}
