pub mod es_repository;
