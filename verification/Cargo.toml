[package]
name = "homework_planner"
version = "0.1.0"
edition = "2021"
publish = false

[dependencies]
base64 = "0.13"
bcrypt = "0.9"
chrono = { version = "0.4", features = ["serde"] }
diesel = { version = "1.4", features = ["postgres", "chrono"] }
num-traits = "0.2"
rocket = "0.4"
rocket_contrib = { version = "0.4", default-features = false, features = ["handlebars_templates", "diesel_postgres_pool", "serve", "json"] }
serde = { version = "1", features = ["derive"] }
serde_json = "1"
