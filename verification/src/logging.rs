pub mod daily_file_appender;
